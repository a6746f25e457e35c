//! The thirteen XPath 1.0 axes (§2.2) over a well-formed `Document`.
//!
//! Forward axes list their nodes in document order; the reverse axes
//! (`ancestor`, `ancestor-or-self`, `preceding`, `preceding-sibling`) list
//! them in reverse document order, nearest node first (§2.4).
use vstd::prelude::*;
use crate::document::{
    Document, NodeKind, NodeView, can_have_children, child_pred, desc_or_self, is_attr_or_ns, is_child_of,
    lemma_desc_ge, lemma_desc_interval, lemma_desc_of_leaf, lemma_desc_root, lemma_desc_step,
    lemma_desc_trans, lists_ok, node_ok, parent_index, rank_ok, wf,
};
use crate::seqs::{
    decreasing, increasing, keep, lemma_keep_select, lemma_select, lemma_select_desc,
    lemma_select_desc_ext, lemma_select_desc_shrink_hi, lemma_select_ext, lemma_select_first,
    lemma_select_none, lemma_select_reverse, lemma_select_shrink_hi, lemma_select_shrink_lo,
    lemma_select_split, select, select_desc,
};

verus! {

// ---- What each axis contains ------------------------------------------

/// `j` lies strictly below `n` and is neither an attribute nor a namespace node.
pub open spec fn descendant_pred(d: Seq<NodeView>, n: int) -> spec_fn(int) -> bool {
    |j: int| j != n && desc_or_self(d, n, j) && !is_attr_or_ns(d[j].kind)
}

/// `j` is not `n` nor below it, and is neither an attribute nor a namespace node.
pub open spec fn following_pred(d: Seq<NodeView>, n: int) -> spec_fn(int) -> bool {
    |j: int| !desc_or_self(d, n, j) && !is_attr_or_ns(d[j].kind)
}

/// `j` is not `n` nor above it, and is neither an attribute nor a namespace node.
pub open spec fn preceding_pred(d: Seq<NodeView>, n: int) -> spec_fn(int) -> bool {
    |j: int| !desc_or_self(d, j, n) && !is_attr_or_ns(d[j].kind)
}

/// `child`: the children of `n`.
pub open spec fn child_axis(d: Seq<NodeView>, n: int) -> Seq<usize> {
    d[n].children
}

/// `descendant`: the nodes below `n`, in document order.
pub open spec fn descendant_axis(d: Seq<NodeView>, n: int) -> Seq<usize> {
    select(n + 1, d.len() as int, descendant_pred(d, n))
}

/// `descendant-or-self`: `n`, then its descendants.
pub open spec fn descendant_or_self_axis(d: Seq<NodeView>, n: int) -> Seq<usize> {
    seq![n as usize] + descendant_axis(d, n)
}

/// `parent`: the parent of `n`, if there is one.
pub open spec fn parent_axis(d: Seq<NodeView>, n: int) -> Seq<usize> {
    match d[n].parent {
        Some(p) => seq![p],
        None => Seq::empty(),
    }
}

/// `ancestor`: the parent of `n`, its parent, and so on, nearest first.
pub open spec fn ancestor_axis(d: Seq<NodeView>, n: int) -> Seq<usize>
    decreases n,
{
    if 0 <= n < d.len() {
        match d[n].parent {
            Some(p) => if (p as int) < n {
                seq![p] + ancestor_axis(d, p as int)
            } else {
                Seq::empty()
            },
            None => Seq::empty(),
        }
    } else {
        Seq::empty()
    }
}

/// `ancestor-or-self`: `n`, then its ancestors.
pub open spec fn ancestor_or_self_axis(d: Seq<NodeView>, n: int) -> Seq<usize> {
    seq![n as usize] + ancestor_axis(d, n)
}

/// `n` has siblings: it has a parent and is neither an attribute nor a
/// namespace node.
pub open spec fn has_siblings(d: Seq<NodeView>, n: int) -> bool {
    d[n].parent is Some && !is_attr_or_ns(d[n].kind)
}

/// `following-sibling`: the children of `n`'s parent after `n`.
pub open spec fn following_sibling_axis(d: Seq<NodeView>, n: int) -> Seq<usize> {
    if has_siblings(d, n) {
        select(n + 1, d.len() as int, child_pred(d, parent_index(d, n)))
    } else {
        Seq::empty()
    }
}

/// `preceding-sibling`: the children of `n`'s parent before `n`, nearest first.
pub open spec fn preceding_sibling_axis(d: Seq<NodeView>, n: int) -> Seq<usize> {
    if has_siblings(d, n) {
        select_desc(0, n, child_pred(d, parent_index(d, n)))
    } else {
        Seq::empty()
    }
}

/// `following`: the nodes after `n` in document order, excluding its
/// descendants and attribute and namespace nodes.
pub open spec fn following_axis(d: Seq<NodeView>, n: int) -> Seq<usize> {
    select(n + 1, d.len() as int, following_pred(d, n))
}

/// `preceding`: the nodes before `n` in document order, excluding its
/// ancestors and attribute and namespace nodes, nearest first.
pub open spec fn preceding_axis(d: Seq<NodeView>, n: int) -> Seq<usize> {
    select_desc(0, n, preceding_pred(d, n))
}

/// `attribute`: the attribute nodes of `n`, empty unless `n` is an element.
pub open spec fn attribute_axis(d: Seq<NodeView>, n: int) -> Seq<usize> {
    if d[n].kind == NodeKind::Element {
        d[n].attributes
    } else {
        Seq::empty()
    }
}

/// `namespace`: the namespace nodes of `n`, empty unless `n` is an element.
pub open spec fn namespace_axis(d: Seq<NodeView>, n: int) -> Seq<usize> {
    if d[n].kind == NodeKind::Element {
        d[n].namespaces
    } else {
        Seq::empty()
    }
}

/// `self`: just `n`.
pub open spec fn self_axis_of(d: Seq<NodeView>, n: int) -> Seq<usize> {
    seq![n as usize]
}

// ---- Facts used by the axes -------------------------------------------

/// The ancestor axis holds exactly the nodes strictly above `n`, in
/// strictly decreasing order.
pub proof fn lemma_ancestor_axis(d: Seq<NodeView>, n: int)
    requires
        wf(d),
        0 <= n < d.len(),
    ensures
        forall|x: int|
            0 <= x < d.len() ==> (#[trigger] ancestor_axis(d, n).contains(x as usize) <==> (x
                != n && desc_or_self(d, x, n))),
        forall|k: int|
            0 <= k < ancestor_axis(d, n).len() ==> #[trigger] ancestor_axis(d, n)[k] < n,
        decreasing(ancestor_axis(d, n)),
    decreases n,
{
    if n > 0 {
        assert(node_ok(d, n));
        let p = parent_index(d, n);
        lemma_ancestor_axis(d, p);
        let a = ancestor_axis(d, p);
        let s = ancestor_axis(d, n);
        assert(s == seq![p as usize] + a);
        assert forall|x: int| 0 <= x < d.len() implies (#[trigger] s.contains(x as usize) <==> (
        x != n && desc_or_self(d, x, n))) by {
            assert(desc_or_self(d, p, p));
            assert(desc_or_self(d, p, n));
            if s.contains(x as usize) {
                let k = choose|k: int| 0 <= k < s.len() && s[k] == x as usize;
                if k > 0 {
                    assert(a[k - 1] == x as usize);
                    assert(a.contains(x as usize));
                    lemma_desc_ge(d, x, p);
                }
                lemma_desc_trans(d, x, p, n);
                lemma_desc_ge(d, p, n);
            }
            if x != n && desc_or_self(d, x, n) {
                if x != p {
                    assert(desc_or_self(d, x, p));
                    assert(a.contains(x as usize));
                    let k = choose|k: int| 0 <= k < a.len() && a[k] == x as usize;
                    assert(s[k + 1] == x as usize);
                } else {
                    assert(s[0] == x as usize);
                }
                assert(s.contains(x as usize));
            }
        }
    } else {
        assert forall|x: int| 0 <= x < d.len() implies (#[trigger] ancestor_axis(
            d,
            n,
        ).contains(x as usize) <==> (x != n && desc_or_self(d, x, n))) by {
            if desc_or_self(d, x, n) {
                lemma_desc_ge(d, x, n);
            }
        }
    }
}


// ---- The axes ---------------------------------------------------------

/// `child` axis: "contains the children of the context node".
pub fn child(doc: &Document, n: usize) -> (r: Vec<usize>)
    requires
        doc.wf(),
        n < doc@.len(),
    ensures
        r@ == child_axis(doc@, n as int),
        increasing(r@),
{
    proof {
        assert(lists_ok(doc@, n as int));
        lemma_select(0, doc@.len() as int, child_pred(doc@, n as int));
    }
    doc.children(n)
}

/// `descendant` axis: "contains the descendants of the context node; ...
/// thus the descendant axis never contains attribute or namespace nodes".
pub fn descendant(doc: &Document, n: usize) -> (r: Vec<usize>)
    requires
        doc.wf(),
        n < doc@.len(),
    ensures
        r@ == descendant_axis(doc@, n as int),
        increasing(r@),
        forall|k: int|
            0 <= k < r@.len() ==> !is_attr_or_ns(#[trigger] doc@[r@[k] as int].kind),
{
    let len: usize = doc.len();
    let mut out: Vec<usize> = Vec::new();
    let mut j: usize = n + 1;
    let ghost p = descendant_pred(doc@, n as int);
    while j < len
        invariant
            doc.wf(),
            n < len == doc@.len(),
            n + 1 <= j <= len,
            p == descendant_pred(doc@, n as int),
            out@ == select(n + 1, j as int, p),
        decreases len - j,
    {
        let k = doc.kind(j);
        if k != NodeKind::Attribute && k != NodeKind::Namespace && doc.is_desc_or_self(n, j) {
            out.push(j);
        }
        j += 1;
    }
    proof {
        lemma_select(n + 1, len as int, p);
    }
    out
}

/// `descendant-or-self` axis: "contains the context node and the
/// descendants of the context node".
pub fn descendant_or_self(doc: &Document, n: usize) -> (r: Vec<usize>)
    requires
        doc.wf(),
        n < doc@.len(),
    ensures
        r@ == descendant_or_self_axis(doc@, n as int),
        increasing(r@),
{
    let mut out: Vec<usize> = Vec::new();
    out.push(n);
    let rest = descendant(doc, n);
    let mut i: usize = 0;
    while i < rest.len()
        invariant
            out@ == seq![n] + rest@.subrange(0, i as int),
            i <= rest.len(),
        decreases rest.len() - i,
    {
        out.push(rest[i]);
        i += 1;
    }
    proof {
        assert(rest@.subrange(0, rest@.len() as int) =~= rest@);
        lemma_select(n + 1, doc@.len() as int, descendant_pred(doc@, n as int));
    }
    out
}

/// `parent` axis: "contains the parent of the context node, if there is one".
pub fn parent(doc: &Document, n: usize) -> (r: Vec<usize>)
    requires
        doc.wf(),
        n < doc@.len(),
    ensures
        r@ == parent_axis(doc@, n as int),
{
    let mut out: Vec<usize> = Vec::new();
    match doc.parent(n) {
        Some(p) => {
            out.push(p);
        },
        None => {},
    }
    proof {
        assert(out@ =~= parent_axis(doc@, n as int));
    }
    out
}

/// `ancestor` axis: "the parent of the context node and the parent's
/// parent and so on", nearest first; it always includes the root unless the
/// context node is the root.
pub fn ancestor(doc: &Document, n: usize) -> (r: Vec<usize>)
    requires
        doc.wf(),
        n < doc@.len(),
    ensures
        r@ == ancestor_axis(doc@, n as int),
        decreasing(r@),
{
    let mut out: Vec<usize> = Vec::new();
    let mut cur: usize = n;
    while cur > 0
        invariant
            doc.wf(),
            n < doc@.len(),
            cur <= n,
            out@ + ancestor_axis(doc@, cur as int) == ancestor_axis(doc@, n as int),
        decreases cur,
    {
        proof {
            assert(node_ok(doc@, cur as int));
        }
        let p = doc.parent(cur).unwrap();
        proof {
            assert(ancestor_axis(doc@, cur as int) == seq![p] + ancestor_axis(doc@, p as int));
            assert(out@.push(p) + ancestor_axis(doc@, p as int) =~= out@ + ancestor_axis(
                doc@,
                cur as int,
            ));
        }
        out.push(p);
        cur = p;
    }
    proof {
        assert(ancestor_axis(doc@, 0) == Seq::<usize>::empty());
        assert(out@ =~= ancestor_axis(doc@, n as int));
        lemma_ancestor_axis(doc@, n as int);
    }
    out
}

/// `ancestor-or-self` axis: the context node, then its ancestors.
pub fn ancestor_or_self(doc: &Document, n: usize) -> (r: Vec<usize>)
    requires
        doc.wf(),
        n < doc@.len(),
    ensures
        r@ == ancestor_or_self_axis(doc@, n as int),
        decreasing(r@),
{
    let mut out: Vec<usize> = Vec::new();
    out.push(n);
    let rest = ancestor(doc, n);
    let mut i: usize = 0;
    while i < rest.len()
        invariant
            out@ == seq![n] + rest@.subrange(0, i as int),
            i <= rest.len(),
        decreases rest.len() - i,
    {
        out.push(rest[i]);
        i += 1;
    }
    proof {
        assert(rest@.subrange(0, rest@.len() as int) =~= rest@);
        lemma_ancestor_axis(doc@, n as int);
    }
    out
}

/// `following-sibling` axis: "contains all the following siblings of the
/// context node; if the context node is an attribute node or namespace
/// node, the following-sibling axis is empty".
pub fn following_sibling(doc: &Document, n: usize) -> (r: Vec<usize>)
    requires
        doc.wf(),
        n < doc@.len(),
    ensures
        r@ == following_sibling_axis(doc@, n as int),
        increasing(r@),
{
    let mut out: Vec<usize> = Vec::new();
    let k = doc.kind(n);
    if k == NodeKind::Attribute || k == NodeKind::Namespace {
        return out;
    }
    let p = match doc.parent(n) {
        Some(p) => p,
        None => {
            return out;
        },
    };
    let len: usize = doc.len();
    let mut j: usize = n + 1;
    let ghost pr = child_pred(doc@, p as int);
    while j < len
        invariant
            doc.wf(),
            n < len == doc@.len(),
            n + 1 <= j <= len,
            pr == child_pred(doc@, p as int),
            out@ == select(n + 1, j as int, pr),
        decreases len - j,
    {
        let kj = doc.kind(j);
        if kj != NodeKind::Attribute && kj != NodeKind::Namespace && doc.parent(j) == Some(p) {
            out.push(j);
        }
        j += 1;
    }
    proof {
        lemma_select(n + 1, len as int, pr);
    }
    out
}

/// `preceding-sibling` axis: "contains all the preceding siblings of the
/// context node; if the context node is an attribute node or namespace
/// node, the preceding-sibling axis is empty", nearest first.
pub fn preceding_sibling(doc: &Document, n: usize) -> (r: Vec<usize>)
    requires
        doc.wf(),
        n < doc@.len(),
    ensures
        r@ == preceding_sibling_axis(doc@, n as int),
        decreasing(r@),
{
    let mut out: Vec<usize> = Vec::new();
    let k = doc.kind(n);
    if k == NodeKind::Attribute || k == NodeKind::Namespace {
        return out;
    }
    let p = match doc.parent(n) {
        Some(p) => p,
        None => {
            return out;
        },
    };
    let mut j: usize = n;
    let ghost pr = child_pred(doc@, p as int);
    while j > 0
        invariant
            doc.wf(),
            n < doc@.len(),
            j <= n,
            pr == child_pred(doc@, p as int),
            out@ == select_desc(j as int, n as int, pr),
        decreases j,
    {
        j -= 1;
        let kj = doc.kind(j);
        if kj != NodeKind::Attribute && kj != NodeKind::Namespace && doc.parent(j) == Some(p) {
            out.push(j);
        }
    }
    proof {
        lemma_select_desc(0, n as int, pr);
    }
    out
}

/// `following` axis: "contains all nodes in the same document as the
/// context node that are after the context node in document order,
/// excluding any descendants and excluding attribute nodes and namespace
/// nodes".
pub fn following(doc: &Document, n: usize) -> (r: Vec<usize>)
    requires
        doc.wf(),
        n < doc@.len(),
    ensures
        r@ == following_axis(doc@, n as int),
        increasing(r@),
        forall|k: int|
            0 <= k < r@.len() ==> !is_attr_or_ns(#[trigger] doc@[r@[k] as int].kind),
{
    let len: usize = doc.len();
    let mut out: Vec<usize> = Vec::new();
    let mut j: usize = n + 1;
    let ghost p = following_pred(doc@, n as int);
    while j < len
        invariant
            doc.wf(),
            n < len == doc@.len(),
            n + 1 <= j <= len,
            p == following_pred(doc@, n as int),
            out@ == select(n + 1, j as int, p),
        decreases len - j,
    {
        let k = doc.kind(j);
        if k != NodeKind::Attribute && k != NodeKind::Namespace && !doc.is_desc_or_self(n, j) {
            out.push(j);
        }
        j += 1;
    }
    proof {
        lemma_select(n + 1, len as int, p);
    }
    out
}

/// `preceding` axis: "contains all nodes in the same document as the
/// context node that are before the context node in document order,
/// excluding any ancestors and excluding attribute nodes and namespace
/// nodes", nearest first.
pub fn preceding(doc: &Document, n: usize) -> (r: Vec<usize>)
    requires
        doc.wf(),
        n < doc@.len(),
    ensures
        r@ == preceding_axis(doc@, n as int),
        decreasing(r@),
        forall|k: int|
            0 <= k < r@.len() ==> !is_attr_or_ns(#[trigger] doc@[r@[k] as int].kind),
{
    let mut out: Vec<usize> = Vec::new();
    let mut j: usize = n;
    let ghost p = preceding_pred(doc@, n as int);
    while j > 0
        invariant
            doc.wf(),
            n < doc@.len(),
            j <= n,
            p == preceding_pred(doc@, n as int),
            out@ == select_desc(j as int, n as int, p),
        decreases j,
    {
        j -= 1;
        let k = doc.kind(j);
        if k != NodeKind::Attribute && k != NodeKind::Namespace && !doc.is_desc_or_self(j, n) {
            out.push(j);
        }
    }
    proof {
        lemma_select_desc(0, n as int, p);
    }
    out
}

/// `attribute` axis: "contains the attributes of the context node; the
/// axis will be empty unless the context node is an element".
pub fn attribute(doc: &Document, n: usize) -> (r: Vec<usize>)
    requires
        doc.wf(),
        n < doc@.len(),
    ensures
        r@ == attribute_axis(doc@, n as int),
        increasing(r@),
{
    if doc.kind(n) == NodeKind::Element {
        proof {
            assert(lists_ok(doc@, n as int));
            lemma_select(0, doc@.len() as int, crate::document::attribute_pred(doc@, n as int));
        }
        doc.attributes(n)
    } else {
        Vec::new()
    }
}

/// `namespace` axis: "contains the namespace nodes of the context node;
/// the axis will be empty unless the context node is an element".
pub fn namespace(doc: &Document, n: usize) -> (r: Vec<usize>)
    requires
        doc.wf(),
        n < doc@.len(),
    ensures
        r@ == namespace_axis(doc@, n as int),
        increasing(r@),
{
    if doc.kind(n) == NodeKind::Element {
        proof {
            assert(lists_ok(doc@, n as int));
            lemma_select(0, doc@.len() as int, crate::document::namespace_pred(doc@, n as int));
        }
        doc.namespaces(n)
    } else {
        Vec::new()
    }
}

/// `self` axis: "contains just the context node itself".
pub fn self_axis(doc: &Document, n: usize) -> (r: Vec<usize>)
    requires
        doc.wf(),
        n < doc@.len(),
    ensures
        r@ == self_axis_of(doc@, n as int),
{
    let mut out: Vec<usize> = Vec::new();
    out.push(n);
    proof {
        assert(out@ =~= self_axis_of(doc@, n as int));
    }
    out
}

// ---- Laws -------------------------------------------------------------

/// Between an attribute or namespace node and its owner element there are
/// only attribute and namespace nodes (the owner's own).
proof fn lemma_between_owner_and_leaf(d: Seq<NodeView>, a: int, j: int)
    requires
        wf(d),
        0 < a < d.len(),
        is_attr_or_ns(d[a].kind),
        parent_index(d, a) < j < a,
    ensures
        is_attr_or_ns(d[j].kind),
{
    assert(node_ok(d, a));
    let o = parent_index(d, a);
    assert(desc_or_self(d, parent_index(d, a), j));
    let c = lemma_desc_step(d, o, j);
    assert(rank_ok(d, c, a));
    lemma_desc_of_leaf(d, c, j);
}

/// §2.2: "the ancestor, descendant, following, preceding and self axes
/// partition a document (ignoring attribute and namespace nodes): they do
/// not overlap and together they contain all the nodes in the document".
/// Every node that is neither an attribute nor a namespace node is in
/// exactly one of the five axes of any node `n`.
pub proof fn law_axes_partition(d: Seq<NodeView>, n: int, j: int)
    requires
        wf(d),
        0 <= n < d.len(),
        0 <= j < d.len(),
        !is_attr_or_ns(d[j].kind),
    ensures
        (if j == n {
            1int
        } else {
            0
        }) + (if ancestor_axis(d, n).contains(j as usize) {
            1int
        } else {
            0
        }) + (if descendant_axis(d, n).contains(j as usize) {
            1int
        } else {
            0
        }) + (if following_axis(d, n).contains(j as usize) {
            1int
        } else {
            0
        }) + (if preceding_axis(d, n).contains(j as usize) {
            1int
        } else {
            0
        }) == 1,
{
    lemma_ancestor_axis(d, n);
    lemma_select(n + 1, d.len() as int, descendant_pred(d, n));
    lemma_select(n + 1, d.len() as int, following_pred(d, n));
    lemma_select_desc(0, n, preceding_pred(d, n));
    assert(ancestor_axis(d, n).contains(j as usize) <==> (j != n && desc_or_self(d, j, n)));
    if desc_or_self(d, j, n) {
        lemma_desc_ge(d, j, n);
    }
    if desc_or_self(d, n, j) {
        lemma_desc_ge(d, n, j);
    }
    if j < n {
        assert(descendant_axis(d, n).contains(j as usize) == false);
        assert(following_axis(d, n).contains(j as usize) == false);
        if desc_or_self(d, j, n) {
            assert(!preceding_pred(d, n)(j));
        } else {
            assert(preceding_pred(d, n)(j));
        }
    } else if j > n {
        assert(preceding_axis(d, n).contains(j as usize) == false);
        if desc_or_self(d, n, j) {
            assert(descendant_pred(d, n)(j));
        } else {
            assert(following_pred(d, n)(j));
        }
    } else {
        assert(descendant_axis(d, n).contains(j as usize) == false);
        assert(following_axis(d, n).contains(j as usize) == false);
        assert(preceding_axis(d, n).contains(j as usize) == false);
    }
}

/// The ancestor axis "will always include the root node, unless the
/// context node is the root node": the root is its last (farthest) node.
pub proof fn law_ancestor_ends_at_root(d: Seq<NodeView>, n: int)
    requires
        wf(d),
        0 <= n < d.len(),
    ensures
        n == 0 ==> ancestor_axis(d, n).len() == 0,
        n != 0 ==> ancestor_axis(d, n).len() > 0 && ancestor_axis(d, n).last() == 0,
{
    lemma_ancestor_axis(d, n);
    if n != 0 {
        lemma_desc_root(d, n);
        let z: int = 0;
        assert(ancestor_axis(d, n).contains(z as usize));
        let s = ancestor_axis(d, n);
        let k = choose|k: int| 0 <= k < s.len() && s[k] == 0usize;
        if k < s.len() - 1 {
            assert(s[k] > s[s.len() - 1]);
        }
    }
}

/// The descendant-or-self axis of the root lists every node that is
/// neither an attribute nor a namespace node, in document order: the
/// document order of the tree's children is the order of the arena.
pub proof fn law_root_listing(d: Seq<NodeView>)
    requires
        wf(d),
    ensures
        descendant_or_self_axis(d, 0) == select(
            0,
            d.len() as int,
            |j: int| !is_attr_or_ns(d[j].kind),
        ),
{
    let q = |j: int| !is_attr_or_ns(d[j].kind);
    assert forall|x: int| 1 <= x < d.len() implies #[trigger] descendant_pred(d, 0)(x) == q(x) by {
        lemma_desc_root(d, x);
    }
    lemma_select_ext(1, d.len() as int, descendant_pred(d, 0), q);
    lemma_select_prepend(d.len() as int, q);
}

/// Selecting from 0 is the first index, if it qualifies, then selecting from 1.
proof fn lemma_select_prepend(hi: int, q: spec_fn(int) -> bool)
    requires
        1 <= hi,
        q(0),
    ensures
        select(0, hi, q) == seq![0usize] + select(1, hi, q),
    decreases hi,
{
    if hi > 1 {
        lemma_select_prepend(hi - 1, q);
        assert(select(0, hi, q) =~= seq![0usize] + select(1, hi, q));
    } else {
        assert(select(1, 1, q) == Seq::<usize>::empty());
        assert(select(0, 0, q) == Seq::<usize>::empty());
        assert(select(0, 1, q) =~= seq![0usize]);
    }
}

/// For an attribute or namespace node, `following` is everything inside
/// its owner element followed by everything after the owner:
/// `following(attr) == descendant(owner) ++ following(owner)`.
pub proof fn law_following_of_attribute(d: Seq<NodeView>, a: int)
    requires
        wf(d),
        0 <= a < d.len(),
        is_attr_or_ns(d[a].kind),
    ensures
        d[a].parent is Some,
        following_axis(d, a) == descendant_axis(d, parent_index(d, a)) + following_axis(
            d,
            parent_index(d, a),
        ),
{
    assert(a != 0);
    assert(node_ok(d, a));
    let o = parent_index(d, a);
    let len = d.len() as int;
    let q = |j: int| !is_attr_or_ns(d[j].kind);
    // following(a) selects every later node that is no attribute or namespace node.
    assert forall|j: int| a + 1 <= j < len implies #[trigger] following_pred(d, a)(j) == q(j) by {
        if desc_or_self(d, a, j) {
            lemma_desc_of_leaf(d, a, j);
        }
    }
    lemma_select_ext(a + 1, len, following_pred(d, a), q);
    // Nothing between the owner and `a` qualifies.
    assert forall|j: int| o + 1 <= j < a + 1 && j < len implies !#[trigger] q(j) by {
        if j < a {
            lemma_between_owner_and_leaf(d, a, j);
        }
    }
    lemma_select_shrink_lo(o + 1, a + 1, len, q);
    // descendant(o) ++ following(o) selects the same nodes.
    let dp = descendant_pred(d, o);
    let fp = following_pred(d, o);
    assert forall|x: int| o + 1 <= x < len implies #[trigger] q(x) == (dp(x) || fp(x)) by {}
    assert forall|x: int| o + 1 <= x < len implies !(#[trigger] dp(x) && fp(x)) by {}
    assert forall|x: int, y: int|
        o + 1 <= x < len && o + 1 <= y < len && #[trigger] dp(x) && #[trigger] fp(y) implies x
        < y by {
        if y < x {
            lemma_desc_interval(d, o, x, y);
        }
    }
    lemma_select_split(o + 1, len, dp, fp, q);
}

/// For an attribute or namespace node, `preceding` is the preceding axis
/// of its owner element: `preceding(attr) == preceding(owner)`.
pub proof fn law_preceding_of_attribute(d: Seq<NodeView>, a: int)
    requires
        wf(d),
        0 <= a < d.len(),
        is_attr_or_ns(d[a].kind),
    ensures
        d[a].parent is Some,
        preceding_axis(d, a) == preceding_axis(d, parent_index(d, a)),
{
    assert(a != 0);
    assert(node_ok(d, a));
    let o = parent_index(d, a);
    let pa = preceding_pred(d, a);
    let po = preceding_pred(d, o);
    assert(desc_or_self(d, o, o));
    assert(desc_or_self(d, o, a));
    assert forall|x: int| o <= x < a && 0 <= x implies !#[trigger] pa(x) by {
        if x > o {
            lemma_between_owner_and_leaf(d, a, x);
        }
    }
    lemma_select_desc_shrink_hi(0, o, a, pa);
    assert forall|x: int| 0 <= x < o implies #[trigger] pa(x) == po(x) by {
        assert(desc_or_self(d, x, a) == desc_or_self(d, x, o));
    }
    lemma_select_desc_ext(0, o, pa, po);
}


/// `m` comes before `n` in document order and is not one of its ancestors.
pub open spec fn before_not_above(d: Seq<NodeView>, n: int) -> spec_fn(usize) -> bool {
    |m: usize| (m as int) < n && !ancestor_axis(d, n).contains(m)
}

/// `preceding(n)` is, read backwards, the listing of the whole tree (the
/// root's descendant-or-self axis) kept to the nodes before `n` that are
/// not its ancestors: the reverse of that listing's part before `n`.
pub proof fn law_preceding_listing(d: Seq<NodeView>, n: int)
    requires
        wf(d),
        0 <= n < d.len(),
    ensures
        preceding_axis(d, n) == keep(descendant_or_self_axis(d, 0), before_not_above(d, n)).reverse(),
{
    let len = d.len() as int;
    let q = |j: int| !is_attr_or_ns(d[j].kind);
    let pa = before_not_above(d, n);
    let r = |j: int| q(j) && pa(j as usize);
    law_root_listing(d);
    lemma_keep_select(0, len, q, pa, r);
    lemma_select_shrink_hi(0, n, len, r);
    lemma_ancestor_axis(d, n);
    assert forall|x: int| 0 <= x < n implies #[trigger] r(x) == preceding_pred(d, n)(x) by {
        assert(ancestor_axis(d, n).contains(x as usize) <==> (x != n && desc_or_self(d, x, n)));
    }
    lemma_select_ext(0, n, r, preceding_pred(d, n));
    lemma_select_reverse(0, n, preceding_pred(d, n));
}

/// The subtrees of the nodes `cs`, one after another: each node followed
/// by its descendants.
pub open spec fn subtrees(d: Seq<NodeView>, cs: Seq<usize>) -> Seq<usize>
    decreases cs.len(),
{
    if cs.len() == 0 {
        Seq::empty()
    } else {
        subtrees(d, cs.drop_last()) + descendant_or_self_axis(d, cs.last() as int)
    }
}

/// `j` is `c` or below it, and no attribute or namespace node.
spec fn in_subtree(d: Seq<NodeView>, c: int) -> spec_fn(int) -> bool {
    |j: int| desc_or_self(d, c, j) && !is_attr_or_ns(d[j].kind)
}

/// `j` lies in the subtree of one of the first `m` of `cs`.
spec fn under_first(d: Seq<NodeView>, cs: Seq<usize>, m: int, j: int) -> bool {
    exists|i: int| 0 <= i < m && #[trigger] desc_or_self(d, cs[i] as int, j) && !is_attr_or_ns(d[j].kind)
}

spec fn under_first_pred(d: Seq<NodeView>, cs: Seq<usize>, m: int) -> spec_fn(int) -> bool {
    |j: int| under_first(d, cs, m, j)
}

/// The subtree of a child, as a selection.
proof fn lemma_subtree_select(d: Seq<NodeView>, c: int)
    requires
        wf(d),
        0 < c < d.len(),
        !is_attr_or_ns(d[c].kind),
    ensures
        descendant_or_self_axis(d, c) == select(0, d.len() as int, in_subtree(d, c)),
{
    let len = d.len() as int;
    let t = in_subtree(d, c);
    assert forall|x: int| 0 <= x < c && x < len implies !#[trigger] t(x) by {
        if desc_or_self(d, c, x) {
            lemma_desc_ge(d, c, x);
        }
    }
    lemma_select_shrink_lo(0, c, len, t);
    assert(t(c));
    lemma_select_first(c, len, t);
    lemma_select_ext(c + 1, len, t, descendant_pred(d, c));
}

/// The children of `n` are in range, children of `n`, and increasing.
proof fn lemma_children(d: Seq<NodeView>, n: int)
    requires
        wf(d),
        0 <= n < d.len(),
    ensures
        forall|k: int|
            0 <= k < d[n].children.len() ==> #[trigger] is_child_of(d, n, d[n].children[k] as int),
        forall|k: int| 0 <= k < d[n].children.len() ==> n < #[trigger] d[n].children[k],
        forall|x: int| #[trigger] is_child_of(d, n, x) ==> d[n].children.contains(x as usize),
        increasing(d[n].children),
{
    assert(lists_ok(d, n));
    lemma_select(0, d.len() as int, child_pred(d, n));
    assert forall|k: int| 0 <= k < d[n].children.len() implies n < #[trigger] d[n].children[k] by {
        let c = d[n].children[k] as int;
        assert(child_pred(d, n)(c));
        assert(node_ok(d, c));
    }
    assert forall|x: int| #[trigger] is_child_of(d, n, x) implies d[n].children.contains(x as usize) by {
        assert(child_pred(d, n)(x));
    }
}

/// Below an earlier child of `n` lies nothing from a later child on.
proof fn lemma_earlier_subtree_before(d: Seq<NodeView>, n: int, a: int, b: int, x: int)
    requires
        wf(d),
        0 <= n < d.len(),
        is_child_of(d, n, a),
        is_child_of(d, n, b),
        a < b,
        desc_or_self(d, a, x),
    ensures
        x < b,
{
    assert(node_ok(d, a));
    assert(node_ok(d, b));
    if x >= b {
        if x > b {
            lemma_desc_interval(d, a, x, b);
        }
        assert(desc_or_self(d, a, b));
        assert(desc_or_self(d, a, n));
        lemma_desc_ge(d, a, n);
    }
}

#[verifier::spinoff_prover]
#[verifier::rlimit(40)]
proof fn lemma_subtrees_prefix(d: Seq<NodeView>, n: int, m: int)
    requires
        wf(d),
        0 <= n < d.len(),
        0 <= m <= d[n].children.len(),
    ensures
        subtrees(d, d[n].children.take(m)) == select(
            0,
            d.len() as int,
            under_first_pred(d, d[n].children, m),
        ),
    decreases m,
{
    let len = d.len() as int;
    let cs = d[n].children;
    lemma_children(d, n);
    if m == 0 {
        assert forall|x: int| 0 <= x < len implies !#[trigger] under_first_pred(d, cs, 0)(x) by {}
        lemma_select_none(0, len, under_first_pred(d, cs, 0));
        assert(cs.take(0) =~= Seq::<usize>::empty());
    } else {
        lemma_subtrees_prefix(d, n, m - 1);
        let c = cs[m - 1] as int;
        assert(is_child_of(d, n, c));
        assert(cs.take(m).drop_last() =~= cs.take(m - 1));
        assert(cs.take(m).last() == cs[m - 1]);
        lemma_subtree_select(d, c);
        let pu = under_first_pred(d, cs, m - 1);
        let qs = in_subtree(d, c);
        let ru = under_first_pred(d, cs, m);
        assert forall|x: int| 0 <= x < len implies #[trigger] ru(x) == (pu(x) || qs(x)) by {
            if ru(x) {
                let i = choose|i: int|
                    0 <= i < m && #[trigger] desc_or_self(d, cs[i] as int, x) && !is_attr_or_ns(
                        d[x].kind,
                    );
                if i < m - 1 {
                    assert(pu(x));
                }
            }
            if pu(x) {
                let i = choose|i: int|
                    0 <= i < m - 1 && #[trigger] desc_or_self(d, cs[i] as int, x) && !is_attr_or_ns(
                        d[x].kind,
                    );
                assert(desc_or_self(d, cs[i] as int, x));
            }
            if qs(x) {
                assert(desc_or_self(d, cs[m - 1] as int, x));
            }
        }
        assert forall|x: int, y: int|
            0 <= x < len && 0 <= y < len && #[trigger] pu(x) && #[trigger] qs(y) implies x < y by {
            let i = choose|i: int|
                0 <= i < m - 1 && #[trigger] desc_or_self(d, cs[i] as int, x) && !is_attr_or_ns(
                    d[x].kind,
                );
            assert(is_child_of(d, n, cs[i] as int));
            lemma_earlier_subtree_before(d, n, cs[i] as int, c, x);
            lemma_desc_ge(d, c, y);
        }
        assert forall|x: int| 0 <= x < len implies !(#[trigger] pu(x) && qs(x)) by {
            if pu(x) && qs(x) {
                let i = choose|i: int|
                    0 <= i < m - 1 && #[trigger] desc_or_self(d, cs[i] as int, x) && !is_attr_or_ns(
                        d[x].kind,
                    );
                assert(is_child_of(d, n, cs[i] as int));
                lemma_earlier_subtree_before(d, n, cs[i] as int, c, x);
                lemma_desc_ge(d, c, x);
            }
        }
        lemma_select_split(0, len, pu, qs, ru);
    }
}

/// `descendant(n)` is, child by child in order, each child of `n` followed
/// by that child's descendants.
pub proof fn law_descendant_by_children(d: Seq<NodeView>, n: int)
    requires
        wf(d),
        0 <= n < d.len(),
    ensures
        descendant_axis(d, n) == subtrees(d, child_axis(d, n)),
{
    let len = d.len() as int;
    let cs = d[n].children;
    lemma_children(d, n);
    lemma_subtrees_prefix(d, n, cs.len() as int);
    assert(cs.take(cs.len() as int) =~= cs);
    let u = under_first_pred(d, cs, cs.len() as int);
    let dp = descendant_pred(d, n);
    assert forall|x: int| 0 <= x < n + 1 && x < len implies !#[trigger] dp(x) by {
        if desc_or_self(d, n, x) {
            lemma_desc_ge(d, n, x);
        }
    }
    lemma_select_shrink_lo(0, n + 1, len, dp);
    assert forall|x: int| 0 <= x < len implies #[trigger] dp(x) == u(x) by {
        if u(x) {
            let i = choose|i: int|
                0 <= i < cs.len() && #[trigger] desc_or_self(d, cs[i] as int, x) && !is_attr_or_ns(
                    d[x].kind,
                );
            let c = cs[i] as int;
            assert(is_child_of(d, n, c));
            assert(node_ok(d, c));
            assert(n < c);
            assert(desc_or_self(d, n, n));
            assert(parent_index(d, c) == n);
            assert(desc_or_self(d, n, c));
            lemma_desc_trans(d, n, c, x);
            lemma_desc_ge(d, c, x);
        }
        if dp(x) {
            let c = lemma_desc_step(d, n, x);
            if is_attr_or_ns(d[c].kind) {
                lemma_desc_of_leaf(d, c, x);
            }
            assert(is_child_of(d, n, c));
            assert(cs.contains(c as usize));
            let k = choose|k: int| 0 <= k < cs.len() && cs[k] == c as usize;
            assert(desc_or_self(d, cs[k] as int, x));
        }
    }
    lemma_select_ext(0, len, dp, u);
}

} // verus!
