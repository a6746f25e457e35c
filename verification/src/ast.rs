//! Abstract syntax tree for XPath 1.0 expressions.
//!
//! Abbreviated syntax (`@name`, `.`, `..`, `//`) is desugared during parsing
//! into its explicit-axis form: there is no separate abbreviated step, only
//! `Step { axis, .. }` with the axis the abbreviation stands for.
use vstd::prelude::*;
use crate::chars::chars_of;

verus! {

/// A qualified name (`NCName (':' NCName)?`, XML Namespaces §3).
#[derive(Debug, Clone, PartialEq, Eq, Hash)]
pub struct QName {
    pub prefix: Option<String>,
    pub local: String,
}

/// A qualified name as characters.
pub ghost struct QNameView {
    pub prefix: Option<Seq<char>>,
    pub local: Seq<char>,
}

impl View for QName {
    type V = QNameView;

    open spec fn view(&self) -> QNameView {
        QNameView { prefix: crate::document::opt_chars(self.prefix), local: self.local@ }
    }
}

/// The thirteen XPath axes (`AxisName`). Abbreviated forms (`@`, `.`, `..`)
/// are represented by the axis they stand for.
#[derive(Debug, Clone, Copy, PartialEq, Eq, Structural)]
pub enum Axis {
    Ancestor,
    AncestorOrSelf,
    Attribute,
    Child,
    Descendant,
    DescendantOrSelf,
    Following,
    FollowingSibling,
    Namespace,
    Parent,
    Preceding,
    PrecedingSibling,
    SelfAxis,
}

/// Whether two strings hold the same characters.
pub(crate) fn str_eq(a: &str, b: &str) -> (r: bool)
    ensures
        r == (a@ == b@),
{
    let x = chars_of(a);
    let y = chars_of(b);
    if x.len() != y.len() {
        return false;
    }
    let mut i: usize = 0;
    while i < x.len()
        invariant
            x@ == a@,
            y@ == b@,
            x@.len() == y@.len(),
            i <= x@.len(),
            forall|k: int| 0 <= k < i ==> x@[k] == y@[k],
        decreases x.len() - i,
    {
        if x[i] != y[i] {
            return false;
        }
        i += 1;
    }
    assert(x@ =~= y@);
    true
}

/// The axis an `AxisName` spells, if any.
pub open spec fn axis_named(name: Seq<char>) -> Option<Axis> {
    if name == "ancestor"@ {
        Some(Axis::Ancestor)
    } else if name == "ancestor-or-self"@ {
        Some(Axis::AncestorOrSelf)
    } else if name == "attribute"@ {
        Some(Axis::Attribute)
    } else if name == "child"@ {
        Some(Axis::Child)
    } else if name == "descendant"@ {
        Some(Axis::Descendant)
    } else if name == "descendant-or-self"@ {
        Some(Axis::DescendantOrSelf)
    } else if name == "following"@ {
        Some(Axis::Following)
    } else if name == "following-sibling"@ {
        Some(Axis::FollowingSibling)
    } else if name == "namespace"@ {
        Some(Axis::Namespace)
    } else if name == "parent"@ {
        Some(Axis::Parent)
    } else if name == "preceding"@ {
        Some(Axis::Preceding)
    } else if name == "preceding-sibling"@ {
        Some(Axis::PrecedingSibling)
    } else if name == "self"@ {
        Some(Axis::SelfAxis)
    } else {
        None
    }
}

impl Axis {
    /// Maps an `AxisName` token text to its `Axis`, or `None` if `name` is
    /// not one of the thirteen axis names.
    pub fn from_name(name: &str) -> (r: Option<Axis>)
        ensures
            r == axis_named(name@),
    {
        if str_eq(name, "ancestor") {
            Some(Axis::Ancestor)
        } else if str_eq(name, "ancestor-or-self") {
            Some(Axis::AncestorOrSelf)
        } else if str_eq(name, "attribute") {
            Some(Axis::Attribute)
        } else if str_eq(name, "child") {
            Some(Axis::Child)
        } else if str_eq(name, "descendant") {
            Some(Axis::Descendant)
        } else if str_eq(name, "descendant-or-self") {
            Some(Axis::DescendantOrSelf)
        } else if str_eq(name, "following") {
            Some(Axis::Following)
        } else if str_eq(name, "following-sibling") {
            Some(Axis::FollowingSibling)
        } else if str_eq(name, "namespace") {
            Some(Axis::Namespace)
        } else if str_eq(name, "parent") {
            Some(Axis::Parent)
        } else if str_eq(name, "preceding") {
            Some(Axis::Preceding)
        } else if str_eq(name, "preceding-sibling") {
            Some(Axis::PrecedingSibling)
        } else if str_eq(name, "self") {
            Some(Axis::SelfAxis)
        } else {
            None
        }
    }
}

/// `NodeTest`: the `NameTest` alternatives (`*`, `prefix:*`, `QName`) and
/// the `NodeType` / `processing-instruction(Literal)` forms.
#[derive(Debug, Clone, PartialEq)]
pub enum NodeTest {
    /// `*`
    AnyName,
    /// `prefix:*`
    NamespaceWildcard(String),
    /// `QName` (possibly namespace-prefixed local name test)
    QName(QName),
    /// `node()`
    Node,
    /// `text()`
    Text,
    /// `comment()`
    Comment,
    /// `processing-instruction()` or `processing-instruction('target')`
    ProcessingInstruction(Option<String>),
}

/// `Step`: `AxisSpecifier NodeTest Predicate*`, with `.` / `..` desugared
/// into the equivalent `self` / `parent` axis step.
#[derive(Debug, PartialEq)]
pub struct Step {
    pub axis: Axis,
    pub node_test: NodeTest,
    pub predicates: Vec<Expr>,
}

/// `LocationPath`: `//` is desugared into an explicit
/// `descendant-or-self::node()` step.
#[derive(Debug, PartialEq)]
pub struct LocationPath {
    pub is_absolute: bool,
    pub steps: Vec<Step>,
}

/// `FunctionCall`: name plus argument expressions, accepted syntactically.
#[derive(Debug, PartialEq)]
pub struct FunctionCall {
    pub name: QName,
    pub args: Vec<Expr>,
}

/// `PrimaryExpr`.
#[derive(Debug, PartialEq)]
pub enum PrimaryExpr {
    /// `VariableReference`: `$QName`.
    Variable(QName),
    /// `'(' Expr ')'`
    Parenthesized(Box<Expr>),
    /// `Literal`.
    Literal(String),
    /// `Number`, as written: `Digits ('.' Digits?)? | '.' Digits`.
    Number(String),
    /// `FunctionCall`.
    Function(FunctionCall),
}

/// `FilterExpr`: a `PrimaryExpr` with zero or more predicates.
#[derive(Debug, PartialEq)]
pub struct FilterExpr {
    pub primary: PrimaryExpr,
    pub predicates: Vec<Expr>,
}

/// `PathExpr`.
#[derive(Debug, PartialEq)]
pub enum PathExpr {
    /// A bare `LocationPath`.
    Location(LocationPath),
    /// A bare `FilterExpr` (no trailing `/` or `//`).
    Filter(FilterExpr),
    /// `FilterExpr '/' RelativeLocationPath`, or with `//` desugared into a
    /// leading `descendant-or-self::node()` step.
    FilterLocation(FilterExpr, LocationPath),
}

#[derive(Debug, Clone, Copy, PartialEq, Eq, Structural)]
pub enum EqualityOp {
    Eq,
    Ne,
}

#[derive(Debug, Clone, Copy, PartialEq, Eq, Structural)]
pub enum RelationalOp {
    Lt,
    Gt,
    Le,
    Ge,
}

#[derive(Debug, Clone, Copy, PartialEq, Eq, Structural)]
pub enum AdditiveOp {
    Add,
    Sub,
}

#[derive(Debug, Clone, Copy, PartialEq, Eq, Structural)]
pub enum MultiplicativeOp {
    Mul,
    Div,
    Mod,
}

/// `Expr` and the operator-precedence chain in one enum: each level either
/// produces a node here or, when its operator is absent, is the expression
/// of the next-tighter level.
#[derive(Debug, PartialEq)]
pub enum Expr {
    /// `OrExpr`.
    Or(Box<Expr>, Box<Expr>),
    /// `AndExpr`.
    And(Box<Expr>, Box<Expr>),
    /// `EqualityExpr`.
    Equality(Box<Expr>, EqualityOp, Box<Expr>),
    /// `RelationalExpr`.
    Relational(Box<Expr>, RelationalOp, Box<Expr>),
    /// `AdditiveExpr`.
    Additive(Box<Expr>, AdditiveOp, Box<Expr>),
    /// `MultiplicativeExpr`.
    Multiplicative(Box<Expr>, MultiplicativeOp, Box<Expr>),
    /// `UnaryExpr ::= '-' UnaryExpr`.
    Negate(Box<Expr>),
    /// `UnionExpr`.
    Union(Box<Expr>, Box<Expr>),
    /// `PathExpr`.
    Path(PathExpr),
}

// ---- The syntax tree as plain values -----------------------------------

/// A node test as plain values.
pub ghost enum NodeTestView {
    AnyName,
    NamespaceWildcard(Seq<char>),
    QName(QNameView),
    Node,
    Text,
    Comment,
    ProcessingInstruction(Option<Seq<char>>),
}

impl View for NodeTest {
    type V = NodeTestView;

    open spec fn view(&self) -> NodeTestView {
        match self {
            NodeTest::AnyName => NodeTestView::AnyName,
            NodeTest::NamespaceWildcard(p) => NodeTestView::NamespaceWildcard(p@),
            NodeTest::QName(q) => NodeTestView::QName(q@),
            NodeTest::Node => NodeTestView::Node,
            NodeTest::Text => NodeTestView::Text,
            NodeTest::Comment => NodeTestView::Comment,
            NodeTest::ProcessingInstruction(t) => NodeTestView::ProcessingInstruction(
                crate::document::opt_chars(*t),
            ),
        }
    }
}

/// A step as plain values.
pub ghost struct StepView {
    pub axis: Axis,
    pub node_test: NodeTestView,
    pub predicates: Seq<ExprView>,
}

/// A location path as plain values.
pub ghost struct LocationPathView {
    pub is_absolute: bool,
    pub steps: Seq<StepView>,
}

/// A primary expression as plain values; a function call as its name and
/// arguments.
pub ghost enum PrimaryView {
    Variable(QNameView),
    Parenthesized(Box<ExprView>),
    Literal(Seq<char>),
    Number(Seq<char>),
    Function(QNameView, Seq<ExprView>),
}

/// A filter expression as plain values.
pub ghost struct FilterView {
    pub primary: PrimaryView,
    pub predicates: Seq<ExprView>,
}

/// A path expression as plain values.
pub ghost enum PathView {
    Location(LocationPathView),
    Filter(FilterView),
    FilterLocation(FilterView, LocationPathView),
}

/// An expression as plain values.
pub ghost enum ExprView {
    Or(Box<ExprView>, Box<ExprView>),
    And(Box<ExprView>, Box<ExprView>),
    Equality(Box<ExprView>, EqualityOp, Box<ExprView>),
    Relational(Box<ExprView>, RelationalOp, Box<ExprView>),
    Additive(Box<ExprView>, AdditiveOp, Box<ExprView>),
    Multiplicative(Box<ExprView>, MultiplicativeOp, Box<ExprView>),
    Negate(Box<ExprView>),
    Union(Box<ExprView>, Box<ExprView>),
    Path(PathView),
}

/// An expression as plain values.
pub open spec fn expr_view(e: &Expr) -> ExprView
    decreases e, 0int,
{
    match e {
        Expr::Or(a, b) => ExprView::Or(Box::new(expr_view(a)), Box::new(expr_view(b))),
        Expr::And(a, b) => ExprView::And(Box::new(expr_view(a)), Box::new(expr_view(b))),
        Expr::Equality(a, op, b) => ExprView::Equality(
            Box::new(expr_view(a)),
            *op,
            Box::new(expr_view(b)),
        ),
        Expr::Relational(a, op, b) => ExprView::Relational(
            Box::new(expr_view(a)),
            *op,
            Box::new(expr_view(b)),
        ),
        Expr::Additive(a, op, b) => ExprView::Additive(
            Box::new(expr_view(a)),
            *op,
            Box::new(expr_view(b)),
        ),
        Expr::Multiplicative(a, op, b) => ExprView::Multiplicative(
            Box::new(expr_view(a)),
            *op,
            Box::new(expr_view(b)),
        ),
        Expr::Negate(a) => ExprView::Negate(Box::new(expr_view(a))),
        Expr::Union(a, b) => ExprView::Union(Box::new(expr_view(a)), Box::new(expr_view(b))),
        Expr::Path(p) => ExprView::Path(path_view(p)),
    }
}

/// A list of expressions as plain values.
pub open spec fn exprs_view(v: Seq<Expr>) -> Seq<ExprView>
    decreases v, 0int,
{
    if v.len() == 0 {
        Seq::empty()
    } else {
        exprs_view(v.drop_last()).push(expr_view(&v.last()))
    }
}

/// A path expression as plain values.
pub open spec fn path_view(p: &PathExpr) -> PathView
    decreases p, 0int,
{
    match p {
        PathExpr::Location(l) => PathView::Location(location_view(l)),
        PathExpr::Filter(f) => PathView::Filter(filter_view(f)),
        PathExpr::FilterLocation(f, l) => PathView::FilterLocation(filter_view(f), location_view(l)),
    }
}

/// A location path as plain values.
pub open spec fn location_view(l: &LocationPath) -> LocationPathView
    decreases l, 0int,
{
    LocationPathView { is_absolute: l.is_absolute, steps: steps_view(l.steps@) }
}

/// A list of steps as plain values.
pub open spec fn steps_view(v: Seq<Step>) -> Seq<StepView>
    decreases v, 0int,
{
    if v.len() == 0 {
        Seq::empty()
    } else {
        steps_view(v.drop_last()).push(step_view(&v.last()))
    }
}

/// A step as plain values.
pub open spec fn step_view(s: &Step) -> StepView
    decreases s, 0int,
{
    StepView { axis: s.axis, node_test: s.node_test@, predicates: exprs_view(s.predicates@) }
}

/// A filter expression as plain values.
pub open spec fn filter_view(f: &FilterExpr) -> FilterView
    decreases f, 0int,
{
    FilterView { primary: primary_view(&f.primary), predicates: exprs_view(f.predicates@) }
}

/// A primary expression as plain values.
pub open spec fn primary_view(p: &PrimaryExpr) -> PrimaryView
    decreases p, 0int,
{
    match p {
        PrimaryExpr::Variable(q) => PrimaryView::Variable(q@),
        PrimaryExpr::Parenthesized(e) => PrimaryView::Parenthesized(Box::new(expr_view(e))),
        PrimaryExpr::Literal(s) => PrimaryView::Literal(s@),
        PrimaryExpr::Number(s) => PrimaryView::Number(s@),
        PrimaryExpr::Function(f) => PrimaryView::Function(f.name@, exprs_view(f.args@)),
    }
}

/// Appending to a list of expressions appends to its view.
pub proof fn lemma_exprs_push(v: Seq<Expr>, e: Expr)
    ensures
        exprs_view(v.push(e)) == exprs_view(v).push(expr_view(&e)),
{
    assert(v.push(e).drop_last() =~= v);
}

/// Appending to a list of steps appends to its view.
pub proof fn lemma_steps_push(v: Seq<Step>, s: Step)
    ensures
        steps_view(v.push(s)) == steps_view(v).push(step_view(&s)),
{
    assert(v.push(s).drop_last() =~= v);
}

/// Putting a step before a list of steps puts its view before the list's.
pub proof fn lemma_steps_prepend(s: Step, v: Seq<Step>)
    ensures
        steps_view(seq![s] + v) == seq![step_view(&s)] + steps_view(v),
    decreases v.len(),
{
    let w = seq![s] + v;
    let sv = step_view(&s);
    if v.len() == 0 {
        assert(w.drop_last() =~= Seq::<Step>::empty());
        assert(w.last() == s);
        assert(steps_view(w.drop_last()) =~= Seq::<StepView>::empty());
        assert(steps_view(w) == steps_view(w.drop_last()).push(sv));
        assert(steps_view(v) =~= Seq::<StepView>::empty());
        assert(steps_view(w) =~= seq![sv] + steps_view(v));
    } else {
        let u = v.drop_last();
        lemma_steps_prepend(s, u);
        assert(w.drop_last() =~= seq![s] + u);
        assert(w.last() == v.last());
        assert(steps_view(w) == steps_view(seq![s] + u).push(step_view(&v.last())));
        assert(steps_view(v) == steps_view(u).push(step_view(&v.last())));
        assert(seq![sv] + steps_view(v) =~= (seq![sv] + steps_view(u)).push(step_view(&v.last())));
    }
}

} // verus!
