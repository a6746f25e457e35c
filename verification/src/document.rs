//! The XPath 1.0 data model (§5): node kinds, expanded names, and a
//! document held as an arena of nodes in document order.
//!
//! A node is identified by its index in the arena. Every document is built
//! through the `add_*` methods, which only accept a new node where it keeps
//! the arena in document order: an element before its namespace nodes,
//! which come before its attribute nodes, which come before its children,
//! each subtree contiguous. Document order is then the order of indices.
use vstd::prelude::*;
use std::cmp::Ordering;
use crate::seqs::{select, lemma_select, lemma_select_ext, lemma_select_none};

verus! {

/// An XPath 1.0 node type (§5).
#[derive(Debug, Clone, Copy, PartialEq, Eq, Hash, Structural)]
pub enum NodeKind {
    Root,
    Element,
    Attribute,
    Namespace,
    ProcessingInstruction,
    Comment,
    Text,
}

/// An expanded name (namespace URI + local name), §5.2/§5.3/§5.4/§5.5.
#[derive(Debug, Clone, PartialEq, Eq)]
pub struct ExpandedName {
    pub namespace_uri: Option<String>,
    pub local_name: String,
}

/// The characters of an optional string.
pub open spec fn opt_chars(s: Option<String>) -> Option<Seq<char>> {
    match s {
        Some(t) => Some(t@),
        None => None,
    }
}

/// An expanded name as characters.
pub ghost struct NameView {
    pub namespace_uri: Option<Seq<char>>,
    pub local_name: Seq<char>,
}

impl View for ExpandedName {
    type V = NameView;

    open spec fn view(&self) -> NameView {
        NameView { namespace_uri: opt_chars(self.namespace_uri), local_name: self.local_name@ }
    }
}

pub open spec fn opt_name_view(n: Option<ExpandedName>) -> Option<NameView> {
    match n {
        Some(e) => Some(e@),
        None => None,
    }
}

/// A copy of an optional string.
pub fn copy_opt_string(s: &Option<String>) -> (r: Option<String>)
    ensures
        opt_chars(r) == opt_chars(*s),
{
    match s {
        Some(t) => Some(t.clone()),
        None => None,
    }
}

/// A copy of an expanded name.
pub fn copy_name(e: &ExpandedName) -> (r: ExpandedName)
    ensures
        r@ == e@,
{
    ExpandedName {
        namespace_uri: copy_opt_string(&e.namespace_uri),
        local_name: e.local_name.clone(),
    }
}

/// One node of a document: its type, name, own text (the string-value of
/// attribute, namespace, processing-instruction, comment and text nodes;
/// empty for the root and elements), its parent, and the indices of its
/// children, attribute nodes and namespace nodes.
pub struct Node {
    pub kind: NodeKind,
    pub name: Option<ExpandedName>,
    pub text: String,
    pub parent: Option<usize>,
    pub children: Vec<usize>,
    pub attributes: Vec<usize>,
    pub namespaces: Vec<usize>,
    pub is_id: bool,
}

/// A node as plain values.
pub ghost struct NodeView {
    pub kind: NodeKind,
    pub name: Option<NameView>,
    pub text: Seq<char>,
    pub parent: Option<usize>,
    pub children: Seq<usize>,
    pub attributes: Seq<usize>,
    pub namespaces: Seq<usize>,
    pub is_id: bool,
}

impl View for Node {
    type V = NodeView;

    open spec fn view(&self) -> NodeView {
        NodeView {
            kind: self.kind,
            name: opt_name_view(self.name),
            text: self.text@,
            parent: self.parent,
            children: self.children@,
            attributes: self.attributes@,
            namespaces: self.namespaces@,
            is_id: self.is_id,
        }
    }
}

/// Attribute and namespace nodes: never children of anything.
pub open spec fn is_attr_or_ns(k: NodeKind) -> bool {
    k == NodeKind::Attribute || k == NodeKind::Namespace
}

/// Root and element nodes: the only ones with children.
pub open spec fn can_have_children(k: NodeKind) -> bool {
    k == NodeKind::Root || k == NodeKind::Element
}

/// Position of a node among its parent's nodes: namespace nodes first,
/// then attribute nodes, then children.
pub open spec fn kind_rank(k: NodeKind) -> int {
    match k {
        NodeKind::Namespace => 0,
        NodeKind::Attribute => 1,
        _ => 2,
    }
}

/// `j` is a child of `p` (attribute and namespace nodes are not children).
pub open spec fn is_child_of(d: Seq<NodeView>, p: int, j: int) -> bool {
    0 <= j < d.len() && d[j].parent == Some(p as usize) && !is_attr_or_ns(d[j].kind)
}

/// `j` is an attribute node of `p`.
pub open spec fn is_attribute_of(d: Seq<NodeView>, p: int, j: int) -> bool {
    0 <= j < d.len() && d[j].parent == Some(p as usize) && d[j].kind == NodeKind::Attribute
}

/// `j` is a namespace node of `p`.
pub open spec fn is_namespace_of(d: Seq<NodeView>, p: int, j: int) -> bool {
    0 <= j < d.len() && d[j].parent == Some(p as usize) && d[j].kind == NodeKind::Namespace
}

pub open spec fn child_pred(d: Seq<NodeView>, p: int) -> spec_fn(int) -> bool {
    |j: int| is_child_of(d, p, j)
}

pub open spec fn attribute_pred(d: Seq<NodeView>, p: int) -> spec_fn(int) -> bool {
    |j: int| is_attribute_of(d, p, j)
}

pub open spec fn namespace_pred(d: Seq<NodeView>, p: int) -> spec_fn(int) -> bool {
    |j: int| is_namespace_of(d, p, j)
}

/// `j` is `a` or lies below `a`: following parents up from `j` reaches `a`.
pub open spec fn desc_or_self(d: Seq<NodeView>, a: int, j: int) -> bool
    decreases j,
{
    if j == a {
        true
    } else if j <= 0 || j >= d.len() {
        false
    } else {
        match d[j].parent {
            Some(p) => if (p as int) < j {
                desc_or_self(d, a, p as int)
            } else {
                false
            },
            None => false,
        }
    }
}

/// The parent index of a non-root node.
pub open spec fn parent_index(d: Seq<NodeView>, j: int) -> int {
    d[j].parent.unwrap() as int
}

/// The facts about one non-root node `j` of a well-formed document: it is
/// not a root, it comes after its parent, its parent can hold it.
pub open spec fn node_ok(d: Seq<NodeView>, j: int) -> bool {
    &&& d[j].kind != NodeKind::Root
    &&& d[j].parent is Some
    &&& parent_index(d, j) < j
    &&& can_have_children(d[parent_index(d, j)].kind)
    &&& is_attr_or_ns(d[j].kind) ==> d[parent_index(d, j)].kind == NodeKind::Element
}

/// A node's lists are exactly its children, attribute and namespace nodes,
/// each in document order.
pub open spec fn lists_ok(d: Seq<NodeView>, p: int) -> bool {
    &&& d[p].children == select(0, d.len() as int, child_pred(d, p))
    &&& d[p].attributes == select(0, d.len() as int, attribute_pred(d, p))
    &&& d[p].namespaces == select(0, d.len() as int, namespace_pred(d, p))
}

/// Of two nodes with the same parent, a namespace node comes before an
/// attribute node, which comes before a child.
pub open spec fn rank_ok(d: Seq<NodeView>, j: int, k: int) -> bool {
    d[j].parent == d[k].parent ==> kind_rank(d[j].kind) <= kind_rank(d[k].kind)
}

/// A well-formed document: the root first, every other node after its
/// parent, each node's lists exactly its children, attribute and namespace
/// nodes in document order, and the arena itself in document order (every
/// node between a parent and its child lies below that parent).
pub open spec fn wf(d: Seq<NodeView>) -> bool {
    &&& 0 < d.len() <= usize::MAX
    &&& d[0].kind == NodeKind::Root
    &&& d[0].parent is None
    &&& forall|j: int| 0 < j < d.len() ==> #[trigger] node_ok(d, j)
    &&& forall|p: int| 0 <= p < d.len() ==> #[trigger] lists_ok(d, p)
    &&& forall|j: int, k: int| 0 < j < k < d.len() ==> #[trigger] rank_ok(d, j, k)
    &&& forall|j: int, k: int|
        0 < j < d.len() && parent_index(d, j) < k < j ==> #[trigger] desc_or_self(
            d,
            parent_index(d, j),
            k,
        )
}

/// A node's attribute and namespace lists name nodes of the document of
/// the right kind, owned by it.
pub proof fn lemma_own_nodes(d: Seq<NodeView>, p: int)
    requires
        wf(d),
        0 <= p < d.len(),
    ensures
        forall|k: int|
            0 <= k < d[p].attributes.len() ==> #[trigger] d[p].attributes[k] < d.len()
                && d[d[p].attributes[k] as int].kind == NodeKind::Attribute
                && d[d[p].attributes[k] as int].parent == Some(p as usize),
        forall|k: int|
            0 <= k < d[p].namespaces.len() ==> #[trigger] d[p].namespaces[k] < d.len()
                && d[d[p].namespaces[k] as int].kind == NodeKind::Namespace
                && d[d[p].namespaces[k] as int].parent == Some(p as usize),
{
    assert(lists_ok(d, p));
    lemma_select(0, d.len() as int, attribute_pred(d, p));
    lemma_select(0, d.len() as int, namespace_pred(d, p));
}

/// In document order (the order of the nodes' indices), a node comes
/// before the nodes it owns, and of two nodes of one owner, a namespace
/// node comes before an attribute node, which comes before a child.
pub proof fn law_owned_nodes_in_order(d: Seq<NodeView>, p: int, j: int, k: int)
    requires
        wf(d),
        0 <= j < d.len(),
        0 <= k < d.len(),
        d[j].parent == Some(p as usize),
        d[k].parent == Some(p as usize),
        0 <= p < d.len(),
        kind_rank(d[j].kind) < kind_rank(d[k].kind),
    ensures
        p < j < k,
{
    assert(j != 0 && k != 0);
    assert(node_ok(d, j));
    if k < j {
        assert(rank_ok(d, k, j));
    }
}

// ---- Facts about descent ----------------------------------------------

/// A node is never above its ancestors.
pub proof fn lemma_desc_ge(d: Seq<NodeView>, a: int, j: int)
    requires
        desc_or_self(d, a, j),
    ensures
        a <= j,
    decreases j,
{
    if j != a {
        let p = d[j].parent.unwrap() as int;
        lemma_desc_ge(d, a, p);
    }
}

/// Descent is transitive.
pub proof fn lemma_desc_trans(d: Seq<NodeView>, a: int, b: int, c: int)
    requires
        desc_or_self(d, a, b),
        desc_or_self(d, b, c),
    ensures
        desc_or_self(d, a, c),
    decreases c,
{
    if c != b {
        let p = d[c].parent.unwrap() as int;
        lemma_desc_trans(d, a, b, p);
    }
}

/// In a well-formed document every node lies below the root.
pub proof fn lemma_desc_root(d: Seq<NodeView>, j: int)
    requires
        wf(d),
        0 <= j < d.len(),
    ensures
        desc_or_self(d, 0, j),
    decreases j,
{
    if j > 0 {
        assert(node_ok(d, j));
        lemma_desc_root(d, parent_index(d, j));
    }
}

/// The nodes below a node form one contiguous run of indices.
pub proof fn lemma_desc_interval(d: Seq<NodeView>, p: int, x: int, k: int)
    requires
        wf(d),
        desc_or_self(d, p, x),
        p < k < x,
    ensures
        desc_or_self(d, p, k),
    decreases x,
{
    assert(node_ok(d, x));
    let q = parent_index(d, x);
    assert(desc_or_self(d, p, q));
    if k == q {
    } else if k < q {
        lemma_desc_ge(d, p, q);
        lemma_desc_interval(d, p, q, k);
    } else {
        assert(desc_or_self(d, parent_index(d, x), k));
        lemma_desc_trans(d, p, q, k);
    }
}

/// Below an attribute or namespace node there is nothing but itself.
pub proof fn lemma_desc_of_leaf(d: Seq<NodeView>, a: int, j: int)
    requires
        wf(d),
        0 <= a < d.len(),
        is_attr_or_ns(d[a].kind),
        desc_or_self(d, a, j),
    ensures
        j == a,
    decreases j,
{
    if j != a {
        assert(node_ok(d, j));
        let p = parent_index(d, j);
        lemma_desc_of_leaf(d, a, p);
    }
}

/// A node strictly below `a` has an ancestor-or-self whose parent is `a`.
pub proof fn lemma_desc_step(d: Seq<NodeView>, a: int, j: int) -> (c: int)
    requires
        wf(d),
        0 <= a,
        desc_or_self(d, a, j),
        j != a,
    ensures
        0 < c <= j,
        d[c].parent == Some(a as usize),
        desc_or_self(d, c, j),
    decreases j,
{
    assert(node_ok(d, j));
    let p = parent_index(d, j);
    if p == a {
        j
    } else {
        let c = lemma_desc_step(d, a, p);
        assert(desc_or_self(d, p, p));
        assert(desc_or_self(d, p, j));
        lemma_desc_trans(d, c, p, j);
        c
    }
}

// ---- The document -----------------------------------------------------

/// An XPath 1.0 document: an arena of nodes in document order, node 0
/// being the root.
pub struct Document {
    nodes: Vec<Node>,
}

impl Document {
    pub closed spec fn as_seq(&self) -> Seq<NodeView> {
        self.nodes@.map_values(|n: Node| n@)
    }

    /// Whether this document is well formed (every document built through
    /// the methods below is).
    pub open spec fn wf(&self) -> bool {
        wf(self@)
    }
}

impl View for Document {
    type V = Seq<NodeView>;

    open spec fn view(&self) -> Seq<NodeView> {
        self.as_seq()
    }
}

/// The text of the given nodes, concatenated in the given order.
pub open spec fn text_of_nodes(d: Seq<NodeView>, js: Seq<usize>) -> Seq<char>
    decreases js.len(),
{
    if js.len() == 0 {
        Seq::empty()
    } else {
        text_of_nodes(d, js.drop_last()) + d[js.last() as int].text
    }
}

/// `j` is a text node below `n`.
pub open spec fn text_below_pred(d: Seq<NodeView>, n: int) -> spec_fn(int) -> bool {
    |j: int| j != n && desc_or_self(d, n, j) && d[j].kind == NodeKind::Text
}

/// The string-value of a node (§5): for the root and elements, the text of
/// all text nodes below it in document order; for every other node, its
/// own text.
pub open spec fn string_value_of(d: Seq<NodeView>, n: int) -> Seq<char> {
    if can_have_children(d[n].kind) {
        text_of_nodes(d, select(n + 1, d.len() as int, text_below_pred(d, n)))
    } else {
        d[n].text
    }
}

/// Document order between two nodes: the order of their indices.
pub open spec fn order_of(a: usize, b: usize) -> Ordering {
    if a < b {
        Ordering::Less
    } else if a == b {
        Ordering::Equal
    } else {
        Ordering::Greater
    }
}

/// A node of kind `k` may come next in document order as a node of `p`:
/// `p` can hold it, `p` is the last node or above it (so nothing of a
/// later subtree is before it), and namespace nodes come before attribute
/// nodes, which come before children.
pub open spec fn can_attach(d: Seq<NodeView>, p: int, k: NodeKind) -> bool {
    &&& d.len() < usize::MAX
    &&& 0 <= p < d.len()
    &&& k != NodeKind::Root
    &&& if is_attr_or_ns(k) {
        d[p].kind == NodeKind::Element
    } else {
        can_have_children(d[p].kind)
    }
    &&& desc_or_self(d, p, d.len() - 1)
    &&& k == NodeKind::Namespace ==> d[p].attributes.len() == 0 && d[p].children.len() == 0
    &&& k == NodeKind::Attribute ==> d[p].children.len() == 0
}

/// `v` with index `i` added to the list that a node of kind `k` belongs in.
pub open spec fn add_to_list(v: NodeView, k: NodeKind, i: usize) -> NodeView {
    NodeView {
        kind: v.kind,
        name: v.name,
        text: v.text,
        parent: v.parent,
        children: if is_attr_or_ns(k) {
            v.children
        } else {
            v.children.push(i)
        },
        attributes: if k == NodeKind::Attribute {
            v.attributes.push(i)
        } else {
            v.attributes
        },
        namespaces: if k == NodeKind::Namespace {
            v.namespaces.push(i)
        } else {
            v.namespaces
        },
        is_id: v.is_id,
    }
}

/// The document with `nv` appended as the next node, a node of `p`.
pub open spec fn attach(d: Seq<NodeView>, p: int, nv: NodeView) -> Seq<NodeView> {
    d.update(p, add_to_list(d[p], nv.kind, d.len() as usize)).push(nv)
}

/// A fresh node of kind `k` under `p`: no nodes of its own yet.
pub open spec fn fresh_node(nv: NodeView, p: int) -> bool {
    &&& nv.parent == Some(p as usize)
    &&& nv.children.len() == 0
    &&& nv.attributes.len() == 0
    &&& nv.namespaces.len() == 0
}

/// Appending a node leaves descent among the earlier nodes as it was.
proof fn lemma_attach_desc(d: Seq<NodeView>, p: int, nv: NodeView, a: int, j: int)
    requires
        0 <= p < d.len(),
        j < d.len(),
    ensures
        desc_or_self(attach(d, p, nv), a, j) == desc_or_self(d, a, j),
    decreases j,
{
    let e = attach(d, p, nv);
    if j != a && 0 < j {
        assert(e[j].parent == d[j].parent);
        match d[j].parent {
            Some(q) => {
                if (q as int) < j {
                    lemma_attach_desc(d, p, nv, a, q as int);
                }
            },
            None => {},
        }
    }
}

/// Appending a node where `can_attach` allows keeps the document well formed.
proof fn lemma_attach_wf(d: Seq<NodeView>, p: int, nv: NodeView)
    requires
        wf(d),
        can_attach(d, p, nv.kind),
        fresh_node(nv, p),
    ensures
        wf(attach(d, p, nv)),
{
    let e = attach(d, p, nv);
    let l: int = d.len() as int;
    assert(e.len() == l + 1);
    assert forall|j: int| 0 < j < e.len() implies #[trigger] node_ok(e, j) by {
        if j < l {
            assert(node_ok(d, j));
            assert(e[j].parent == d[j].parent);
            assert(e[parent_index(d, j)].kind == d[parent_index(d, j)].kind);
        }
    }
    assert forall|q: int| 0 <= q < e.len() implies #[trigger] lists_ok(e, q) by {
        if q < l {
            assert(lists_ok(d, q));
            lemma_select_ext(0, l, child_pred(d, q), child_pred(e, q));
            lemma_select_ext(0, l, attribute_pred(d, q), attribute_pred(e, q));
            lemma_select_ext(0, l, namespace_pred(d, q), namespace_pred(e, q));
            if q == p {
                assert(e[q].children =~= select(0, l + 1, child_pred(e, q)));
                assert(e[q].attributes =~= select(0, l + 1, attribute_pred(e, q)));
                assert(e[q].namespaces =~= select(0, l + 1, namespace_pred(e, q)));
            } else {
                assert(e[q] == d[q]);
                assert(e[q].children =~= select(0, l + 1, child_pred(e, q)));
                assert(e[q].attributes =~= select(0, l + 1, attribute_pred(e, q)));
                assert(e[q].namespaces =~= select(0, l + 1, namespace_pred(e, q)));
            }
        } else {
            assert forall|j: int| 0 <= j < l + 1 implies !#[trigger] child_pred(e, q)(j) by {
                if 0 < j < l {
                    assert(node_ok(d, j));
                }
            }
            assert forall|j: int| 0 <= j < l + 1 implies !#[trigger] attribute_pred(e, q)(j) by {
                if 0 < j < l {
                    assert(node_ok(d, j));
                }
            }
            assert forall|j: int| 0 <= j < l + 1 implies !#[trigger] namespace_pred(e, q)(j) by {
                if 0 < j < l {
                    assert(node_ok(d, j));
                }
            }
            lemma_select_none(0, l + 1, child_pred(e, q));
            lemma_select_none(0, l + 1, attribute_pred(e, q));
            lemma_select_none(0, l + 1, namespace_pred(e, q));
            assert(e[q].children =~= Seq::<usize>::empty());
            assert(e[q].attributes =~= Seq::<usize>::empty());
            assert(e[q].namespaces =~= Seq::<usize>::empty());
        }
    }
    assert forall|j: int, k: int| 0 < j < k < e.len() implies #[trigger] rank_ok(e, j, k) by {
        if k < l {
            assert(rank_ok(d, j, k));
        } else if e[j].parent == e[k].parent {
            assert(lists_ok(d, p));
            assert(node_ok(d, j));
            lemma_select(0, l, child_pred(d, p));
            lemma_select(0, l, attribute_pred(d, p));
            if nv.kind == NodeKind::Namespace {
                if d[j].kind == NodeKind::Attribute {
                    assert(attribute_pred(d, p)(j));
                    assert(d[p].attributes.contains(j as usize));
                } else if !is_attr_or_ns(d[j].kind) {
                    assert(child_pred(d, p)(j));
                    assert(d[p].children.contains(j as usize));
                }
            } else if nv.kind == NodeKind::Attribute {
                if !is_attr_or_ns(d[j].kind) {
                    assert(child_pred(d, p)(j));
                    assert(d[p].children.contains(j as usize));
                }
            }
        }
    }
    assert forall|j: int, k: int|
        0 < j < e.len() && parent_index(e, j) < k < j implies #[trigger] desc_or_self(
        e,
        parent_index(e, j),
        k,
    ) by {
        if j < l {
            assert(node_ok(d, j));
            assert(desc_or_self(d, parent_index(d, j), k));
            lemma_attach_desc(d, p, nv, parent_index(d, j), k);
        } else {
            if k < l - 1 {
                lemma_desc_interval(d, p, l - 1, k);
            }
            lemma_attach_desc(d, p, nv, p, k);
        }
    }
}

impl Document {
    /// A document holding just a root node.
    pub fn new() -> (r: Document)
        ensures
            r.wf(),
            r@.len() == 1,
            r@[0].kind == NodeKind::Root,
            r@[0].name is None,
            r@[0].text.len() == 0,
    {
        let root = Node {
            kind: NodeKind::Root,
            name: None,
            text: String::new(),
            parent: None,
            children: Vec::new(),
            attributes: Vec::new(),
            namespaces: Vec::new(),
            is_id: false,
        };
        let mut nodes = Vec::new();
        nodes.push(root);
        let r = Document { nodes };
        proof {
            let d = r@;
            assert(d.len() == 1);
            assert forall|q: int| 0 <= q < d.len() implies #[trigger] lists_ok(d, q) by {
                lemma_select_none(0, 1, child_pred(d, q));
                lemma_select_none(0, 1, attribute_pred(d, q));
                lemma_select_none(0, 1, namespace_pred(d, q));
            }
        }
        r
    }

    /// The number of nodes.
    pub fn len(&self) -> (r: usize)
        ensures
            r == self@.len(),
    {
        self.nodes.len()
    }

    /// The root node (§5.1).
    pub fn root(&self) -> (r: usize)
        ensures
            r == 0,
    {
        0
    }

    /// The record of node `n`.
    pub fn node(&self, n: usize) -> (r: &Node)
        requires
            n < self@.len(),
        ensures
            r@ == self@[n as int],
    {
        &self.nodes[n]
    }

    /// The node's type.
    pub fn kind(&self, n: usize) -> (r: NodeKind)
        requires
            n < self@.len(),
        ensures
            r == self@[n as int].kind,
    {
        self.nodes[n].kind
    }

    /// The node's parent, if any. Attribute and namespace nodes have their
    /// owner element as parent.
    pub fn parent(&self, n: usize) -> (r: Option<usize>)
        requires
            n < self@.len(),
        ensures
            r == self@[n as int].parent,
    {
        self.nodes[n].parent
    }

    /// The node's children, in document order.
    pub fn children(&self, n: usize) -> (r: Vec<usize>)
        requires
            n < self@.len(),
        ensures
            r@ == self@[n as int].children,
    {
        copy_indices(&self.nodes[n].children)
    }

    /// The element's attribute nodes, in document order.
    pub fn attributes(&self, n: usize) -> (r: Vec<usize>)
        requires
            n < self@.len(),
        ensures
            r@ == self@[n as int].attributes,
    {
        copy_indices(&self.nodes[n].attributes)
    }

    /// The element's namespace nodes, in document order.
    pub fn namespaces(&self, n: usize) -> (r: Vec<usize>)
        requires
            n < self@.len(),
        ensures
            r@ == self@[n as int].namespaces,
    {
        copy_indices(&self.nodes[n].namespaces)
    }

    /// The node's expanded name, if it has one.
    pub fn expanded_name(&self, n: usize) -> (r: Option<ExpandedName>)
        requires
            n < self@.len(),
        ensures
            opt_name_view(r) == self@[n as int].name,
    {
        match &self.nodes[n].name {
            Some(e) => Some(copy_name(e)),
            None => None,
        }
    }

    /// Whether this attribute node is of type ID (§5.3).
    pub fn is_id_attribute(&self, n: usize) -> (r: bool)
        requires
            n < self@.len(),
        ensures
            r == self@[n as int].is_id,
    {
        self.nodes[n].is_id
    }

    /// Document order between two nodes (§5).
    pub fn document_order(&self, a: usize, b: usize) -> (r: Ordering)
        ensures
            r == order_of(a, b),
    {
        if a < b {
            Ordering::Less
        } else if a == b {
            Ordering::Equal
        } else {
            Ordering::Greater
        }
    }

    /// Whether `j` is `a` or lies below it.
    pub fn is_desc_or_self(&self, a: usize, j: usize) -> (r: bool)
        requires
            self.wf(),
            a < self@.len(),
            j < self@.len(),
        ensures
            r == desc_or_self(self@, a as int, j as int),
    {
        let mut cur: usize = j;
        while cur > a
            invariant
                self.wf(),
                a < self@.len(),
                cur <= j < self@.len(),
                desc_or_self(self@, a as int, j as int) == desc_or_self(
                    self@,
                    a as int,
                    cur as int,
                ),
            decreases cur,
        {
            proof {
                assert(node_ok(self@, cur as int));
            }
            match self.nodes[cur].parent {
                Some(p) => {
                    cur = p;
                },
                None => {
                    return false;
                },
            }
        }
        if cur == a {
            true
        } else {
            proof {
                if desc_or_self(self@, a as int, cur as int) {
                    lemma_desc_ge(self@, a as int, cur as int);
                }
            }
            false
        }
    }

    /// The node's string-value (§5): for the root and elements, the text of
    /// every text node below it, in document order; for other nodes, their
    /// own text.
    pub fn string_value(&self, n: usize) -> (r: String)
        requires
            self.wf(),
            n < self@.len(),
        ensures
            r@ == string_value_of(self@, n as int),
    {
        let k = self.nodes[n].kind;
        if k == NodeKind::Root || k == NodeKind::Element {
            let mut out = String::new();
            let len: usize = self.nodes.len();
            let mut j: usize = n + 1;
            let ghost p = text_below_pred(self@, n as int);
            while j < len
                invariant
                    self.wf(),
                    n < len == self@.len(),
                    n + 1 <= j <= len,
                    p == text_below_pred(self@, n as int),
                    out@ == text_of_nodes(self@, select(n + 1, j as int, p)),
                decreases len - j,
            {
                let ghost s = select(n + 1, j as int, p);
                if self.nodes[j].kind == NodeKind::Text && self.is_desc_or_self(n, j) {
                    out.append(self.nodes[j].text.as_str());
                    proof {
                        assert((s + seq![j]).drop_last() =~= s);
                    }
                }
                j += 1;
            }
            out
        } else {
            self.nodes[n].text.clone()
        }
    }

    /// Adds `node` as the next node in document order, a node of `parent`.
    fn add_node(&mut self, parent: usize, node: Node) -> (r: Option<usize>)
        requires
            old(self).wf(),
            fresh_node(node@, parent as int),
        ensures
            final(self).wf(),
            r == (if can_attach(old(self)@, parent as int, node.kind) {
                Some(old(self)@.len() as usize)
            } else {
                None::<usize>
            }),
            r is None ==> final(self)@ == old(self)@,
            r is Some ==> final(self)@ == attach(old(self)@, parent as int, node@),
    {
        let len: usize = self.nodes.len();
        if len == usize::MAX || parent >= len {
            return None;
        }
        let pk = self.nodes[parent].kind;
        let k = node.kind;
        let fits = match k {
            NodeKind::Root => false,
            NodeKind::Attribute | NodeKind::Namespace => pk == NodeKind::Element,
            _ => pk == NodeKind::Root || pk == NodeKind::Element,
        };
        if !fits {
            return None;
        }
        if !self.is_desc_or_self(parent, len - 1) {
            return None;
        }
        if k == NodeKind::Namespace && (self.nodes[parent].attributes.len() > 0
            || self.nodes[parent].children.len() > 0) {
            return None;
        }
        if k == NodeKind::Attribute && self.nodes[parent].children.len() > 0 {
            return None;
        }
        let ghost d = self@;
        let ghost nv = node@;
        self.nodes.push(node);
        if k == NodeKind::Attribute {
            self.nodes[parent].attributes.push(len);
        } else if k == NodeKind::Namespace {
            self.nodes[parent].namespaces.push(len);
        } else {
            self.nodes[parent].children.push(len);
        }
        proof {
            assert(self@ =~= attach(d, parent as int, nv));
            lemma_attach_wf(d, parent as int, nv);
        }
        Some(len)
    }
}

/// A new node's view: kind, name, text and parent, with no nodes of its own.
pub open spec fn new_node(
    k: NodeKind,
    name: Option<NameView>,
    text: Seq<char>,
    p: int,
    is_id: bool,
) -> NodeView {
    NodeView {
        kind: k,
        name: name,
        text: text,
        parent: Some(p as usize),
        children: Seq::empty(),
        attributes: Seq::empty(),
        namespaces: Seq::empty(),
        is_id: is_id,
    }
}

/// The document after an `add_*` call: the new node appended where
/// `can_attach` allows it, the document unchanged otherwise.
pub open spec fn added(d: Seq<NodeView>, p: int, nv: NodeView) -> (Option<usize>, Seq<NodeView>) {
    if can_attach(d, p, nv.kind) {
        (Some(d.len() as usize), attach(d, p, nv))
    } else {
        (None, d)
    }
}

impl Document {
    fn add_fresh(
        &mut self,
        parent: usize,
        kind: NodeKind,
        name: Option<ExpandedName>,
        text: String,
        is_id: bool,
    ) -> (r: Option<usize>)
        requires
            old(self).wf(),
        ensures
            final(self).wf(),
            (r, final(self)@) == added(
                old(self)@,
                parent as int,
                new_node(kind, opt_name_view(name), text@, parent as int, is_id),
            ),
    {
        let node = Node {
            kind,
            name,
            text,
            parent: Some(parent),
            children: Vec::new(),
            attributes: Vec::new(),
            namespaces: Vec::new(),
            is_id,
        };
        proof {
            assert(node@ =~= new_node(kind, opt_name_view(name), text@, parent as int, is_id));
        }
        self.add_node(parent, node)
    }

    /// Adds an element named `name` as the next child of `parent`. `None`
    /// (and the document unchanged) where that would break document order:
    /// `parent` must be the root or an element and the last node or above it.
    pub fn add_element(&mut self, parent: usize, name: ExpandedName) -> (r: Option<usize>)
        requires
            old(self).wf(),
        ensures
            final(self).wf(),
            (r, final(self)@) == added(
                old(self)@,
                parent as int,
                new_node(NodeKind::Element, Some(name@), Seq::empty(), parent as int, false),
            ),
    {
        self.add_fresh(parent, NodeKind::Element, Some(name), String::new(), false)
    }

    /// Adds an attribute node `name="value"` to element `owner`: only before
    /// the element has children.
    pub fn add_attribute(&mut self, owner: usize, name: ExpandedName, value: String) -> (r: Option<
        usize,
    >)
        requires
            old(self).wf(),
        ensures
            final(self).wf(),
            (r, final(self)@) == added(
                old(self)@,
                owner as int,
                new_node(NodeKind::Attribute, Some(name@), value@, owner as int, false),
            ),
    {
        self.add_fresh(owner, NodeKind::Attribute, Some(name), value, false)
    }

    /// Adds an attribute node of type ID (§5.3), as `add_attribute` does.
    pub fn add_id_attribute(&mut self, owner: usize, name: ExpandedName, value: String) -> (r:
        Option<usize>)
        requires
            old(self).wf(),
        ensures
            final(self).wf(),
            (r, final(self)@) == added(
                old(self)@,
                owner as int,
                new_node(NodeKind::Attribute, Some(name@), value@, owner as int, true),
            ),
    {
        self.add_fresh(owner, NodeKind::Attribute, Some(name), value, true)
    }

    /// Adds a namespace node binding `prefix` to `uri` to element `owner`:
    /// only before the element has attribute nodes or children. Its
    /// expanded name has the prefix as local name and no namespace URI; its
    /// string-value is the URI (§5.4).
    pub fn add_namespace(&mut self, owner: usize, prefix: String, uri: String) -> (r: Option<usize>)
        requires
            old(self).wf(),
        ensures
            final(self).wf(),
            (r, final(self)@) == added(
                old(self)@,
                owner as int,
                new_node(
                    NodeKind::Namespace,
                    Some(NameView { namespace_uri: None, local_name: prefix@ }),
                    uri@,
                    owner as int,
                    false,
                ),
            ),
    {
        let name = ExpandedName { namespace_uri: None, local_name: prefix };
        self.add_fresh(owner, NodeKind::Namespace, Some(name), uri, false)
    }

    /// Adds a text node as the next child of `parent`.
    pub fn add_text(&mut self, parent: usize, text: String) -> (r: Option<usize>)
        requires
            old(self).wf(),
        ensures
            final(self).wf(),
            (r, final(self)@) == added(
                old(self)@,
                parent as int,
                new_node(NodeKind::Text, None, text@, parent as int, false),
            ),
    {
        self.add_fresh(parent, NodeKind::Text, None, text, false)
    }

    /// Adds a comment node as the next child of `parent`.
    pub fn add_comment(&mut self, parent: usize, text: String) -> (r: Option<usize>)
        requires
            old(self).wf(),
        ensures
            final(self).wf(),
            (r, final(self)@) == added(
                old(self)@,
                parent as int,
                new_node(NodeKind::Comment, None, text@, parent as int, false),
            ),
    {
        self.add_fresh(parent, NodeKind::Comment, None, text, false)
    }

    /// Adds a processing-instruction node `<?target content?>` as the next
    /// child of `parent`; its expanded name has the target as local name.
    pub fn add_processing_instruction(
        &mut self,
        parent: usize,
        target: String,
        content: String,
    ) -> (r: Option<usize>)
        requires
            old(self).wf(),
        ensures
            final(self).wf(),
            (r, final(self)@) == added(
                old(self)@,
                parent as int,
                new_node(
                    NodeKind::ProcessingInstruction,
                    Some(NameView { namespace_uri: None, local_name: target@ }),
                    content@,
                    parent as int,
                    false,
                ),
            ),
    {
        let name = ExpandedName { namespace_uri: None, local_name: target };
        self.add_fresh(parent, NodeKind::ProcessingInstruction, Some(name), content, false)
    }
}

/// A copy of a list of node indices.
pub fn copy_indices(v: &Vec<usize>) -> (r: Vec<usize>)
    ensures
        r@ == v@,
{
    let mut r = Vec::new();
    let mut i: usize = 0;
    while i < v.len()
        invariant
            i <= v.len(),
            r@ == v@.subrange(0, i as int),
        decreases v.len() - i,
    {
        r.push(v[i]);
        i += 1;
    }
    assert(r@ =~= v@);
    r
}

} // verus!
