//! Recursive-descent parser for XPath 1.0 expressions: the
//! operator-precedence chain of productions [14]-[27] (`or`, `and`,
//! equality, relational, additive, multiplicative, unary minus, union,
//! path), then location paths, steps, predicates and primary expressions
//! ([1]-[13], [15]-[20]). Abbreviations are desugared as they are read.
//! Function names are taken as written: which functions exist is a matter
//! for evaluation.
use vstd::prelude::*;
use crate::ast::{
    axis_named, exprs_view, lemma_exprs_push, lemma_steps_prepend, lemma_steps_push, location_view, path_view,
    steps_view, step_view, filter_view, primary_view, expr_view, AdditiveOp, Axis, EqualityOp,
    Expr, ExprView, FilterExpr, FilterView, FunctionCall, LocationPath, LocationPathView,
    MultiplicativeOp, NodeTest, NodeTestView, PathExpr, PathView, PrimaryExpr, PrimaryView, QName,
    QNameView, RelationalOp, Step, StepView, str_eq,
};
use crate::document::copy_opt_string;
use crate::lexer::{lex, tokenize, tokens_view, Token, TokenView};

verus! {

/// A parse error: a byte offset into the expression and a description.
#[derive(Debug, Clone, PartialEq)]
pub struct ParseError {
    pub position: usize,
    pub message: String,
}

/// A parse error as plain values.
pub ghost struct ErrorView {
    pub position: int,
    pub message: Seq<char>,
}

impl View for ParseError {
    type V = ErrorView;

    open spec fn view(&self) -> ErrorView {
        ErrorView { position: self.position as int, message: self.message@ }
    }
}

/// The error at byte `position` described by `message`.
pub open spec fn error_at(position: int, message: Seq<char>) -> ErrorView {
    ErrorView { position, message }
}

impl ParseError {
    /// The error at byte `position` described by `message`.
    pub fn new(position: usize, message: &str) -> (r: ParseError)
        ensures
            r@ == error_at(position as int, message@),
    {
        ParseError { position, message: message.to_owned() }
    }
}

// ---- The grammar over tokens -------------------------------------------

/// The tokens of an expression with their byte offsets.
pub type Toks = Seq<(TokenView, int)>;

/// A parsed value and the index of the first token after it, or an error.
pub type Parsed<T> = Result<(T, int), ErrorView>;

/// The token at index `p`, if there is one.
pub open spec fn tok(t: Toks, p: int) -> Option<TokenView> {
    if 0 <= p < t.len() {
        Some(t[p].0)
    } else {
        None
    }
}

/// The byte offset of the token at index `p`, or `end` past the last one.
pub open spec fn pos_of(t: Toks, p: int, end: int) -> int {
    if 0 <= p < t.len() {
        t[p].1
    } else {
        end
    }
}

/// The closing `]` (`bracket`) or `)` at index `p`: the index after it, or
/// the error for whatever stands there instead.
pub open spec fn expect(t: Toks, p: int, end: int, bracket: bool) -> Result<int, ErrorView> {
    let want = if bracket {
        TokenView::RBracket
    } else {
        TokenView::RParen
    };
    match tok(t, p) {
        Some(x) => if x == want {
            Ok(p + 1)
        } else {
            Err(
                error_at(
                    t[p].1,
                    if bracket {
                        "expected ']'"@
                    } else {
                        "expected ')'"@
                    },
                ),
            )
        },
        None => Err(
            error_at(
                end,
                if bracket {
                    "unexpected end of input, expected ']'"@
                } else {
                    "unexpected end of input, expected ')'"@
                },
            ),
        ),
    }
}

/// The `descendant-or-self::node()` step that `//` stands for.
pub open spec fn dos_step() -> StepView {
    StepView { axis: Axis::DescendantOrSelf, node_test: NodeTestView::Node, predicates: Seq::empty() }
}

/// The names of the node types (`NodeType`).
pub open spec fn is_node_type(s: Seq<char>) -> bool {
    s == "comment"@ || s == "text"@ || s == "processing-instruction"@ || s == "node"@
}

/// A node type name followed by `(`.
pub open spec fn node_type_call(t: Toks, p: int) -> bool {
    &&& tok(t, p) matches Some(TokenView::Name { prefix: None, local }) && is_node_type(local)
    &&& tok(t, p + 1) == Some(TokenView::LParen)
}

/// An axis name followed by `::`: the axis it names.
pub open spec fn axis_at(t: Toks, p: int) -> Option<Axis> {
    if tok(t, p + 1) == Some(TokenView::ColonColon) {
        match tok(t, p) {
            Some(TokenView::Name { prefix: None, local }) => axis_named(local),
            _ => None,
        }
    } else {
        None
    }
}

/// Whether a location path starts at `p`, rather than a filter expression.
pub open spec fn starts_location_path(t: Toks, p: int) -> bool {
    match tok(t, p) {
        Some(TokenView::Slash) | Some(TokenView::SlashSlash) | Some(TokenView::Dot) | Some(
            TokenView::DotDot,
        ) | Some(TokenView::At) | Some(TokenView::Wildcard) | Some(TokenView::NsWildcard(_)) => true,
        Some(TokenView::Name { .. }) => node_type_call(t, p) || tok(t, p + 1) != Some(
            TokenView::LParen,
        ),
        _ => false,
    }
}

/// Whether a step can start at `p`.
pub open spec fn can_start_step(t: Toks, p: int) -> bool {
    match tok(t, p) {
        Some(TokenView::Dot) | Some(TokenView::DotDot) | Some(TokenView::At) | Some(
            TokenView::Wildcard,
        ) | Some(TokenView::NsWildcard(_)) | Some(TokenView::Name { .. }) => true,
        _ => false,
    }
}

/// The binary operators, each of one level of the precedence chain.
#[derive(Clone, Copy, PartialEq, Eq, Structural)]
pub enum BinaryOp {
    Or,
    And,
    Equality(EqualityOp),
    Relational(RelationalOp),
    Additive(AdditiveOp),
    Multiplicative(MultiplicativeOp),
}

/// The operator of level `level` (6 `or`, 5 `and`, 4 equality, 3
/// relational, 2 additive, 1 multiplicative) that the token spells, if any.
pub open spec fn op_at(level: nat, x: Option<TokenView>) -> Option<BinaryOp> {
    match x {
        Some(TokenView::Or) => if level == 6 {
            Some(BinaryOp::Or)
        } else {
            None
        },
        Some(TokenView::And) => if level == 5 {
            Some(BinaryOp::And)
        } else {
            None
        },
        Some(TokenView::Eq) => if level == 4 {
            Some(BinaryOp::Equality(EqualityOp::Eq))
        } else {
            None
        },
        Some(TokenView::Ne) => if level == 4 {
            Some(BinaryOp::Equality(EqualityOp::Ne))
        } else {
            None
        },
        Some(TokenView::Lt) => if level == 3 {
            Some(BinaryOp::Relational(RelationalOp::Lt))
        } else {
            None
        },
        Some(TokenView::Gt) => if level == 3 {
            Some(BinaryOp::Relational(RelationalOp::Gt))
        } else {
            None
        },
        Some(TokenView::Le) => if level == 3 {
            Some(BinaryOp::Relational(RelationalOp::Le))
        } else {
            None
        },
        Some(TokenView::Ge) => if level == 3 {
            Some(BinaryOp::Relational(RelationalOp::Ge))
        } else {
            None
        },
        Some(TokenView::Plus) => if level == 2 {
            Some(BinaryOp::Additive(AdditiveOp::Add))
        } else {
            None
        },
        Some(TokenView::Minus) => if level == 2 {
            Some(BinaryOp::Additive(AdditiveOp::Sub))
        } else {
            None
        },
        Some(TokenView::Star) => if level == 1 {
            Some(BinaryOp::Multiplicative(MultiplicativeOp::Mul))
        } else {
            None
        },
        Some(TokenView::Div) => if level == 1 {
            Some(BinaryOp::Multiplicative(MultiplicativeOp::Div))
        } else {
            None
        },
        Some(TokenView::Mod) => if level == 1 {
            Some(BinaryOp::Multiplicative(MultiplicativeOp::Mod))
        } else {
            None
        },
        _ => None,
    }
}

/// The expression `lhs op rhs`.
pub open spec fn combine(op: BinaryOp, lhs: ExprView, rhs: ExprView) -> ExprView {
    match op {
        BinaryOp::Or => ExprView::Or(Box::new(lhs), Box::new(rhs)),
        BinaryOp::And => ExprView::And(Box::new(lhs), Box::new(rhs)),
        BinaryOp::Equality(o) => ExprView::Equality(Box::new(lhs), o, Box::new(rhs)),
        BinaryOp::Relational(o) => ExprView::Relational(Box::new(lhs), o, Box::new(rhs)),
        BinaryOp::Additive(o) => ExprView::Additive(Box::new(lhs), o, Box::new(rhs)),
        BinaryOp::Multiplicative(o) => ExprView::Multiplicative(Box::new(lhs), o, Box::new(rhs)),
    }
}

/// An error that no successful parse step leads to: every production
/// consumes tokens as it succeeds.
pub open spec fn stuck(end: int) -> ErrorView {
    error_at(end, Seq::empty())
}

/// `Expr`: an `OrExpr`.
pub open spec fn p_expr(t: Toks, p: int, end: int) -> Parsed<ExprView>
    decreases t.len() - p, 38int,
{
    p_binary(t, p, end, 6)
}

/// The binary operator level `level` (see `op_at`): operands of the next
/// tighter level (unary minus below level 1) joined left-associatively.
pub open spec fn p_binary(t: Toks, p: int, end: int, level: nat) -> Parsed<ExprView>
    decreases t.len() - p, 24 + 2 * level,
{
    let first = if level <= 1 {
        p_unary(t, p, end)
    } else {
        p_binary(t, p, end, (level - 1) as nat)
    };
    match first {
        Err(e) => Err(e),
        Ok((lhs, p1)) => if p <= p1 <= t.len() {
            binary_rest(t, p1, end, level, lhs)
        } else {
            Err(stuck(end))
        },
    }
}

/// What follows the first operand `lhs` of level `level` at `p`.
pub open spec fn binary_rest(t: Toks, p: int, end: int, level: nat, lhs: ExprView) -> Parsed<
    ExprView,
>
    decreases t.len() - p, 23 + 2 * level,
{
    match op_at(level, tok(t, p)) {
        None => Ok((lhs, p)),
        Some(op) => {
            let next = if level <= 1 {
                p_unary(t, p + 1, end)
            } else {
                p_binary(t, p + 1, end, (level - 1) as nat)
            };
            match next {
                Err(e) => Err(e),
                Ok((rhs, p2)) => if p < p2 <= t.len() {
                    binary_rest(t, p2, end, level, combine(op, lhs, rhs))
                } else {
                    Err(stuck(end))
                },
            }
        },
    }
}

/// `UnaryExpr`: `'-' UnaryExpr` or a `UnionExpr`.
pub open spec fn p_unary(t: Toks, p: int, end: int) -> Parsed<ExprView>
    decreases t.len() - p, 22int,
{
    if tok(t, p) == Some(TokenView::Minus) {
        match p_unary(t, p + 1, end) {
            Err(e) => Err(e),
            Ok((e, p1)) => Ok((ExprView::Negate(Box::new(e)), p1)),
        }
    } else {
        p_union(t, p, end)
    }
}

/// `UnionExpr`: path expressions joined by `|`, left-associatively.
pub open spec fn p_union(t: Toks, p: int, end: int) -> Parsed<ExprView>
    decreases t.len() - p, 21int,
{
    match p_path(t, p, end) {
        Err(e) => Err(e),
        Ok((lhs, p1)) => if p <= p1 <= t.len() {
            union_rest(t, p1, end, lhs)
        } else {
            Err(stuck(end))
        },
    }
}

/// What follows the first operand `lhs` of a union at `p`.
pub open spec fn union_rest(t: Toks, p: int, end: int, lhs: ExprView) -> Parsed<ExprView>
    decreases t.len() - p, 20int,
{
    if tok(t, p) == Some(TokenView::Pipe) {
        match p_path(t, p + 1, end) {
            Err(e) => Err(e),
            Ok((rhs, p2)) => if p < p2 <= t.len() {
                union_rest(t, p2, end, ExprView::Union(Box::new(lhs), Box::new(rhs)))
            } else {
                Err(stuck(end))
            },
        }
    } else {
        Ok((lhs, p))
    }
}

/// `PathExpr`: a location path, or a filter expression followed by `/` or
/// `//` and a relative location path, or a bare filter expression.
pub open spec fn p_path(t: Toks, p: int, end: int) -> Parsed<ExprView>
    decreases t.len() - p, 19int,
{
    if starts_location_path(t, p) {
        match p_location(t, p, end) {
            Err(e) => Err(e),
            Ok((l, p1)) => Ok((ExprView::Path(PathView::Location(l)), p1)),
        }
    } else {
        match p_filter(t, p, end) {
            Err(e) => Err(e),
            Ok((f, p1)) => if p <= p1 <= t.len() {
                if tok(t, p1) == Some(TokenView::Slash) || tok(t, p1) == Some(
                    TokenView::SlashSlash,
                ) {
                    match p_steps(t, p1 + 1, end) {
                        Err(e) => Err(e),
                        Ok((steps, p2)) => Ok(
                            (
                                ExprView::Path(
                                    PathView::FilterLocation(
                                        f,
                                        LocationPathView {
                                            is_absolute: false,
                                            steps: if tok(t, p1) == Some(TokenView::Slash) {
                                                steps
                                            } else {
                                                seq![dos_step()] + steps
                                            },
                                        },
                                    ),
                                ),
                                p2,
                            ),
                        ),
                    }
                } else {
                    Ok((ExprView::Path(PathView::Filter(f)), p1))
                }
            } else {
                Err(stuck(end))
            },
        }
    }
}

/// `LocationPath`: `/` with an optional relative path, `//` and a relative
/// path, or a relative path.
pub open spec fn p_location(t: Toks, p: int, end: int) -> Parsed<LocationPathView>
    decreases t.len() - p, 18int,
{
    if tok(t, p) == Some(TokenView::Slash) {
        if can_start_step(t, p + 1) {
            match p_steps(t, p + 1, end) {
                Err(e) => Err(e),
                Ok((steps, p1)) => Ok((LocationPathView { is_absolute: true, steps }, p1)),
            }
        } else {
            Ok((LocationPathView { is_absolute: true, steps: Seq::empty() }, p + 1))
        }
    } else if tok(t, p) == Some(TokenView::SlashSlash) {
        match p_steps(t, p + 1, end) {
            Err(e) => Err(e),
            Ok((steps, p1)) => Ok(
                (LocationPathView { is_absolute: true, steps: seq![dos_step()] + steps }, p1),
            ),
        }
    } else {
        match p_steps(t, p, end) {
            Err(e) => Err(e),
            Ok((steps, p1)) => Ok((LocationPathView { is_absolute: false, steps }, p1)),
        }
    }
}

/// `FilterExpr`: a primary expression and its predicates.
pub open spec fn p_filter(t: Toks, p: int, end: int) -> Parsed<FilterView>
    decreases t.len() - p, 17int,
{
    match p_primary(t, p, end) {
        Err(e) => Err(e),
        Ok((primary, p1)) => if p <= p1 <= t.len() {
            match p_predicates(t, p1, end, Seq::empty()) {
                Err(e) => Err(e),
                Ok((predicates, p2)) => Ok((FilterView { primary, predicates }, p2)),
            }
        } else {
            Err(stuck(end))
        },
    }
}

/// `RelativeLocationPath`: steps separated by `/`, or by `//`, which adds
/// a `descendant-or-self::node()` step.
pub open spec fn p_steps(t: Toks, p: int, end: int) -> Parsed<Seq<StepView>>
    decreases t.len() - p, 16int,
{
    match p_step(t, p, end) {
        Err(e) => Err(e),
        Ok((s, p1)) => if p <= p1 <= t.len() {
            steps_rest(t, p1, end, seq![s])
        } else {
            Err(stuck(end))
        },
    }
}

/// What follows the steps `acc` at `p`.
pub open spec fn steps_rest(t: Toks, p: int, end: int, acc: Seq<StepView>) -> Parsed<
    Seq<StepView>,
>
    decreases t.len() - p, 15int,
{
    if tok(t, p) == Some(TokenView::Slash) || tok(t, p) == Some(TokenView::SlashSlash) {
        match p_step(t, p + 1, end) {
            Err(e) => Err(e),
            Ok((s, p2)) => if p < p2 <= t.len() {
                steps_rest(
                    t,
                    p2,
                    end,
                    if tok(t, p) == Some(TokenView::Slash) {
                        acc.push(s)
                    } else {
                        acc.push(dos_step()).push(s)
                    },
                )
            } else {
                Err(stuck(end))
            },
        }
    } else {
        Ok((acc, p))
    }
}

/// `Step`: `.`, `..`, or an axis (`@`, `name::` or the child axis), a node
/// test and predicates.
pub open spec fn p_step(t: Toks, p: int, end: int) -> Parsed<StepView>
    decreases t.len() - p, 14int,
{
    if tok(t, p) == Some(TokenView::Dot) {
        Ok(
            (
                StepView {
                    axis: Axis::SelfAxis,
                    node_test: NodeTestView::Node,
                    predicates: Seq::empty(),
                },
                p + 1,
            ),
        )
    } else if tok(t, p) == Some(TokenView::DotDot) {
        Ok(
            (
                StepView {
                    axis: Axis::Parent,
                    node_test: NodeTestView::Node,
                    predicates: Seq::empty(),
                },
                p + 1,
            ),
        )
    } else {
        let (axis, q) = if tok(t, p) == Some(TokenView::At) {
            (Axis::Attribute, p + 1)
        } else if axis_at(t, p) is Some {
            (axis_at(t, p).unwrap(), p + 2)
        } else {
            (Axis::Child, p)
        };
        if q <= t.len() {
            match p_node_test(t, q, end) {
                Err(e) => Err(e),
                Ok((node_test, p1)) => if q <= p1 <= t.len() {
                    match p_predicates(t, p1, end, Seq::empty()) {
                        Err(e) => Err(e),
                        Ok((predicates, p2)) => Ok((StepView { axis, node_test, predicates }, p2)),
                    }
                } else {
                    Err(stuck(end))
                },
            }
        } else {
            Err(stuck(end))
        }
    }
}

/// `Predicate*`: bracketed expressions, appended to `acc`.
pub open spec fn p_predicates(t: Toks, p: int, end: int, acc: Seq<ExprView>) -> Parsed<
    Seq<ExprView>,
>
    decreases t.len() - p, 13int,
{
    if tok(t, p) == Some(TokenView::LBracket) {
        match p_expr(t, p + 1, end) {
            Err(e) => Err(e),
            Ok((e, p1)) => if p < p1 <= t.len() {
                match expect(t, p1, end, true) {
                    Err(err) => Err(err),
                    Ok(p2) => p_predicates(t, p2, end, acc.push(e)),
                }
            } else {
                Err(stuck(end))
            },
        }
    } else {
        Ok((acc, p))
    }
}

/// `NodeTest`: `*`, `prefix:*`, a node type test, or a name.
#[verifier::opaque]
pub open spec fn p_node_test(t: Toks, p: int, end: int) -> Parsed<NodeTestView>
    decreases t.len() - p, 12int,
{
    match tok(t, p) {
        Some(TokenView::Wildcard) => Ok((NodeTestView::AnyName, p + 1)),
        Some(TokenView::NsWildcard(prefix)) => Ok((NodeTestView::NamespaceWildcard(prefix), p + 1)),
        Some(TokenView::Name { prefix, local }) => if tok(t, p + 1) == Some(TokenView::LParen) {
            if prefix is None && is_node_type(local) {
                if local == "processing-instruction"@ {
                    match tok(t, p + 2) {
                        Some(TokenView::Literal(target)) => match expect(t, p + 3, end, false) {
                            Err(e) => Err(e),
                            Ok(q) => Ok((NodeTestView::ProcessingInstruction(Some(target)), q)),
                        },
                        _ => match expect(t, p + 2, end, false) {
                            Err(e) => Err(e),
                            Ok(q) => Ok((NodeTestView::ProcessingInstruction(None), q)),
                        },
                    }
                } else {
                    match expect(t, p + 2, end, false) {
                        Err(e) => Err(e),
                        Ok(q) => Ok(
                            (
                                if local == "node"@ {
                                    NodeTestView::Node
                                } else if local == "text"@ {
                                    NodeTestView::Text
                                } else {
                                    NodeTestView::Comment
                                },
                                q,
                            ),
                        ),
                    }
                }
            } else {
                Err(error_at(t[p].1, "function call is not a valid node test"@))
            }
        } else {
            Ok((NodeTestView::QName(QNameView { prefix, local }), p + 1))
        },
        Some(_) => Err(error_at(t[p].1, "expected a node test"@)),
        None => Err(error_at(end, "unexpected end of input, expected a node test"@)),
    }
}

/// `PrimaryExpr`: a variable reference, a parenthesized expression, a
/// literal, a number, or a function call.
pub open spec fn p_primary(t: Toks, p: int, end: int) -> Parsed<PrimaryView>
    decreases t.len() - p, 11int,
{
    match tok(t, p) {
        Some(TokenView::Variable(q)) => Ok((PrimaryView::Variable(q), p + 1)),
        Some(TokenView::LParen) => match p_expr(t, p + 1, end) {
            Err(e) => Err(e),
            Ok((e, p1)) => if p < p1 <= t.len() {
                match expect(t, p1, end, false) {
                    Err(err) => Err(err),
                    Ok(p2) => Ok((PrimaryView::Parenthesized(Box::new(e)), p2)),
                }
            } else {
                Err(stuck(end))
            },
        },
        Some(TokenView::Literal(s)) => Ok((PrimaryView::Literal(s), p + 1)),
        Some(TokenView::Number(s)) => Ok((PrimaryView::Number(s), p + 1)),
        Some(TokenView::Name { prefix, local }) => if tok(t, p + 1) == Some(TokenView::LParen) {
            match p_args(t, p + 2, end) {
                Err(e) => Err(e),
                Ok((args, p1)) => if p + 2 <= p1 <= t.len() {
                    match expect(t, p1, end, false) {
                        Err(err) => Err(err),
                        Ok(p2) => Ok((PrimaryView::Function(QNameView { prefix, local }, args), p2)),
                    }
                } else {
                    Err(stuck(end))
                },
            }
        } else {
            Err(error_at(t[p].1, "expected an expression"@))
        },
        Some(_) => Err(error_at(t[p].1, "expected an expression"@)),
        None => Err(error_at(end, "unexpected end of input, expected an expression"@)),
    }
}

/// The arguments of a function call: none before `)`, else expressions
/// separated by `,`.
pub open spec fn p_args(t: Toks, p: int, end: int) -> Parsed<Seq<ExprView>>
    decreases t.len() - p, 40int,
{
    if tok(t, p) == Some(TokenView::RParen) {
        Ok((Seq::empty(), p))
    } else {
        match p_expr(t, p, end) {
            Err(e) => Err(e),
            Ok((e, p1)) => if p <= p1 <= t.len() {
                args_rest(t, p1, end, seq![e])
            } else {
                Err(stuck(end))
            },
        }
    }
}

/// What follows the arguments `acc` at `p`.
pub open spec fn args_rest(t: Toks, p: int, end: int, acc: Seq<ExprView>) -> Parsed<
    Seq<ExprView>,
>
    decreases t.len() - p, 39int,
{
    if tok(t, p) == Some(TokenView::Comma) {
        match p_expr(t, p + 1, end) {
            Err(e) => Err(e),
            Ok((e, p2)) => if p < p2 <= t.len() {
                args_rest(t, p2, end, acc.push(e))
            } else {
                Err(stuck(end))
            },
        }
    } else {
        Ok((acc, p))
    }
}

/// The expression that the characters `cs` spell, `end` being their length
/// in bytes: its tokens must form one `Expr` and nothing more.
pub open spec fn parse_spec(cs: Seq<char>, end: int) -> Result<ExprView, ErrorView> {
    match lex(cs) {
        Err(e) => Err(e),
        Ok(t) => if t.len() == 0 {
            Err(error_at(0, "empty expression"@))
        } else {
            match p_expr(t, 0, end) {
                Err(e) => Err(e),
                Ok((e, p)) => if p != t.len() {
                    Err(error_at(pos_of(t, p, end), "unexpected trailing input"@))
                } else {
                    Ok(e)
                },
            }
        },
    }
}

// ---- Where parse errors are ----------------------------------------------

/// `x` is `end` or the offset of one of the tokens.
pub open spec fn token_or_end(t: Toks, end: int, x: int) -> bool {
    x == end || exists|k: int| 0 <= k < t.len() && #[trigger] t[k].1 == x
}

/// The error of a `Parsed` result, if it is one, is at a token or the end.
pub open spec fn err_at_token_or_end<T>(t: Toks, end: int, r: Parsed<T>) -> bool {
    r matches Err(e) ==> token_or_end(t, end, e.position)
}

proof fn lemma_expect_err(t: Toks, p: int, end: int, bracket: bool)
    ensures
        expect(t, p, end, bracket) matches Err(e) ==> token_or_end(t, end, e.position),
{
    if 0 <= p < t.len() {
        assert(t[p].1 == t[p].1);
    }
}

proof fn lemma_err_expr(t: Toks, p: int, end: int)
    ensures
        err_at_token_or_end(t, end, p_expr(t, p, end)),
    decreases t.len() - p, 38int,
{
    lemma_err_binary(t, p, end, 6);
}

proof fn lemma_err_binary(t: Toks, p: int, end: int, level: nat)
    ensures
        err_at_token_or_end(t, end, p_binary(t, p, end, level)),
    decreases t.len() - p, 24 + 2 * level,
{
    let first = if level <= 1 {
        p_unary(t, p, end)
    } else {
        p_binary(t, p, end, (level - 1) as nat)
    };
    if level <= 1 {
        lemma_err_unary(t, p, end);
    } else {
        lemma_err_binary(t, p, end, (level - 1) as nat);
    }
    if let Ok((lhs, p1)) = first {
        if p <= p1 <= t.len() {
            lemma_err_binary_rest(t, p1, end, level, lhs);
        }
    }
}

proof fn lemma_err_binary_rest(t: Toks, p: int, end: int, level: nat, lhs: ExprView)
    ensures
        err_at_token_or_end(t, end, binary_rest(t, p, end, level, lhs)),
    decreases t.len() - p, 23 + 2 * level,
{
    if let Some(op) = op_at(level, tok(t, p)) {
        let next = if level <= 1 {
            p_unary(t, p + 1, end)
        } else {
            p_binary(t, p + 1, end, (level - 1) as nat)
        };
        if level <= 1 {
            lemma_err_unary(t, p + 1, end);
        } else {
            lemma_err_binary(t, p + 1, end, (level - 1) as nat);
        }
        if let Ok((rhs, p2)) = next {
            if p < p2 <= t.len() {
                lemma_err_binary_rest(t, p2, end, level, combine(op, lhs, rhs));
            }
        }
    }
}

proof fn lemma_err_unary(t: Toks, p: int, end: int)
    ensures
        err_at_token_or_end(t, end, p_unary(t, p, end)),
    decreases t.len() - p, 22int,
{
    if tok(t, p) == Some(TokenView::Minus) {
        lemma_err_unary(t, p + 1, end);
    } else {
        lemma_err_union(t, p, end);
    }
}

proof fn lemma_err_union(t: Toks, p: int, end: int)
    ensures
        err_at_token_or_end(t, end, p_union(t, p, end)),
    decreases t.len() - p, 21int,
{
    lemma_err_path(t, p, end);
    if let Ok((lhs, p1)) = p_path(t, p, end) {
        if p <= p1 <= t.len() {
            lemma_err_union_rest(t, p1, end, lhs);
        }
    }
}

proof fn lemma_err_union_rest(t: Toks, p: int, end: int, lhs: ExprView)
    ensures
        err_at_token_or_end(t, end, union_rest(t, p, end, lhs)),
    decreases t.len() - p, 20int,
{
    if tok(t, p) == Some(TokenView::Pipe) {
        lemma_err_path(t, p + 1, end);
        if let Ok((rhs, p2)) = p_path(t, p + 1, end) {
            if p < p2 <= t.len() {
                lemma_err_union_rest(t, p2, end, ExprView::Union(Box::new(lhs), Box::new(rhs)));
            }
        }
    }
}

proof fn lemma_err_path(t: Toks, p: int, end: int)
    ensures
        err_at_token_or_end(t, end, p_path(t, p, end)),
    decreases t.len() - p, 19int,
{
    if starts_location_path(t, p) {
        lemma_err_location(t, p, end);
    } else {
        lemma_err_filter(t, p, end);
        if let Ok((f, p1)) = p_filter(t, p, end) {
            if p <= p1 <= t.len() {
                if tok(t, p1) == Some(TokenView::Slash) || tok(t, p1) == Some(
                    TokenView::SlashSlash,
                ) {
                    lemma_err_steps(t, p1 + 1, end);
                }
            }
        }
    }
}

proof fn lemma_err_location(t: Toks, p: int, end: int)
    ensures
        err_at_token_or_end(t, end, p_location(t, p, end)),
    decreases t.len() - p, 18int,
{
    if tok(t, p) == Some(TokenView::Slash) || tok(t, p) == Some(TokenView::SlashSlash) {
        lemma_err_steps(t, p + 1, end);
    } else {
        lemma_err_steps(t, p, end);
    }
}

proof fn lemma_err_filter(t: Toks, p: int, end: int)
    ensures
        err_at_token_or_end(t, end, p_filter(t, p, end)),
    decreases t.len() - p, 17int,
{
    lemma_err_primary(t, p, end);
    if let Ok((primary, p1)) = p_primary(t, p, end) {
        if p <= p1 <= t.len() {
            lemma_err_predicates(t, p1, end, Seq::empty());
        }
    }
}

proof fn lemma_err_steps(t: Toks, p: int, end: int)
    ensures
        err_at_token_or_end(t, end, p_steps(t, p, end)),
    decreases t.len() - p, 16int,
{
    lemma_err_step(t, p, end);
    if let Ok((s, p1)) = p_step(t, p, end) {
        if p <= p1 <= t.len() {
            lemma_err_steps_rest(t, p1, end, seq![s]);
        }
    }
}

proof fn lemma_err_steps_rest(t: Toks, p: int, end: int, acc: Seq<StepView>)
    ensures
        err_at_token_or_end(t, end, steps_rest(t, p, end, acc)),
    decreases t.len() - p, 15int,
{
    if tok(t, p) == Some(TokenView::Slash) || tok(t, p) == Some(TokenView::SlashSlash) {
        lemma_err_step(t, p + 1, end);
        if let Ok((s, p2)) = p_step(t, p + 1, end) {
            if p < p2 <= t.len() {
                let next = if tok(t, p) == Some(TokenView::Slash) {
                    acc.push(s)
                } else {
                    acc.push(dos_step()).push(s)
                };
                lemma_err_steps_rest(t, p2, end, next);
            }
        }
    }
}

proof fn lemma_err_step(t: Toks, p: int, end: int)
    ensures
        err_at_token_or_end(t, end, p_step(t, p, end)),
    decreases t.len() - p, 14int,
{
    if tok(t, p) != Some(TokenView::Dot) && tok(t, p) != Some(TokenView::DotDot) {
        let (axis, q) = if tok(t, p) == Some(TokenView::At) {
            (Axis::Attribute, p + 1)
        } else if axis_at(t, p) is Some {
            (axis_at(t, p).unwrap(), p + 2)
        } else {
            (Axis::Child, p)
        };
        if q <= t.len() {
            lemma_err_node_test(t, q, end);
            if let Ok((node_test, p1)) = p_node_test(t, q, end) {
                if q <= p1 <= t.len() {
                    lemma_err_predicates(t, p1, end, Seq::empty());
                }
            }
        }
    }
}

proof fn lemma_err_predicates(t: Toks, p: int, end: int, acc: Seq<ExprView>)
    ensures
        err_at_token_or_end(t, end, p_predicates(t, p, end, acc)),
    decreases t.len() - p, 13int,
{
    if tok(t, p) == Some(TokenView::LBracket) {
        lemma_err_expr(t, p + 1, end);
        if let Ok((e, p1)) = p_expr(t, p + 1, end) {
            if p < p1 <= t.len() {
                lemma_expect_err(t, p1, end, true);
                if let Ok(p2) = expect(t, p1, end, true) {
                    lemma_err_predicates(t, p2, end, acc.push(e));
                }
            }
        }
    }
}

proof fn lemma_err_node_test(t: Toks, p: int, end: int)
    ensures
        err_at_token_or_end(t, end, p_node_test(t, p, end)),
    decreases t.len() - p, 12int,
{
    reveal(p_node_test);
    lemma_expect_err(t, p + 2, end, false);
    lemma_expect_err(t, p + 3, end, false);
    if 0 <= p < t.len() {
        assert(t[p].1 == t[p].1);
    }
}

proof fn lemma_err_primary(t: Toks, p: int, end: int)
    ensures
        err_at_token_or_end(t, end, p_primary(t, p, end)),
    decreases t.len() - p, 11int,
{
    if 0 <= p < t.len() {
        assert(t[p].1 == t[p].1);
    }
    if tok(t, p) == Some(TokenView::LParen) {
        lemma_err_expr(t, p + 1, end);
        if let Ok((e, p1)) = p_expr(t, p + 1, end) {
            lemma_expect_err(t, p1, end, false);
        }
    } else if tok(t, p) matches Some(TokenView::Name { .. }) && tok(t, p + 1) == Some(
        TokenView::LParen,
    ) {
        lemma_err_args(t, p + 2, end);
        if let Ok((args, p1)) = p_args(t, p + 2, end) {
            lemma_expect_err(t, p1, end, false);
        }
    }
}

proof fn lemma_err_args(t: Toks, p: int, end: int)
    ensures
        err_at_token_or_end(t, end, p_args(t, p, end)),
    decreases t.len() - p, 40int,
{
    if tok(t, p) != Some(TokenView::RParen) {
        lemma_err_expr(t, p, end);
        if let Ok((e, p1)) = p_expr(t, p, end) {
            if p <= p1 <= t.len() {
                lemma_err_args_rest(t, p1, end, seq![e]);
            }
        }
    }
}

proof fn lemma_err_args_rest(t: Toks, p: int, end: int, acc: Seq<ExprView>)
    ensures
        err_at_token_or_end(t, end, args_rest(t, p, end, acc)),
    decreases t.len() - p, 39int,
{
    if tok(t, p) == Some(TokenView::Comma) {
        lemma_err_expr(t, p + 1, end);
        if let Ok((e, p2)) = p_expr(t, p + 1, end) {
            if p < p2 <= t.len() {
                lemma_err_args_rest(t, p2, end, acc.push(e));
            }
        }
    }
}

/// A parse error points into the expression: at the byte offset of one of
/// its characters, or at its end (`end`), or, for an expression with no
/// token at all, at 0.
pub proof fn law_parse_error_position(cs: Seq<char>, end: int)
    ensures
        parse_spec(cs, end) matches Err(e) ==> e.position == 0 || e.position == end
            || crate::lexer::char_offset_from(cs, 0, e.position),
{
    crate::lexer::law_token_offsets(cs);
    if let Ok(t) = lex(cs) {
        if t.len() > 0 {
            lemma_err_expr(t, 0, end);
            if let Err(e) = p_expr(t, 0, end) {
                if e.position != end {
                    let k = choose|k: int| 0 <= k < t.len() && #[trigger] t[k].1 == e.position;
                    assert(crate::lexer::char_offset_from(cs, 0, t[k].1));
                }
            }
            if let Ok((e, p)) = p_expr(t, 0, end) {
                if p != t.len() && 0 <= p < t.len() {
                    assert(crate::lexer::char_offset_from(cs, 0, t[p].1));
                }
            }
        }
    }
}

// ---- The parser ---------------------------------------------------------

/// The token at index `p`, if there is one.
fn peek(toks: &Vec<(Token, usize)>, p: usize) -> (r: Option<&Token>)
    ensures
        match r {
            Some(x) => p < toks@.len() && tok(tokens_view(toks@), p as int) == Some(x@),
            None => tok(tokens_view(toks@), p as int) is None,
        },
{
    if p < toks.len() {
        Some(&toks[p].0)
    } else {
        None
    }
}

/// The byte offset of the token at index `p`, or `end` past the last one.
fn current_pos(toks: &Vec<(Token, usize)>, p: usize, end: usize) -> (r: usize)
    ensures
        r == pos_of(tokens_view(toks@), p as int, end as int),
{
    if p < toks.len() {
        toks[p].1
    } else {
        end
    }
}

/// Consumes the closing `]` (`bracket`) or `)` at `p` (see `expect`).
fn expect_close(toks: &Vec<(Token, usize)>, p: usize, end: usize, bracket: bool) -> (r: Result<
    usize,
    ParseError,
>)
    ensures
        match r {
            Ok(q) => expect(tokens_view(toks@), p as int, end as int, bracket) == Ok::<
                int,
                ErrorView,
            >(q as int),
            Err(e) => expect(tokens_view(toks@), p as int, end as int, bracket) == Err::<
                int,
                ErrorView,
            >(e@),
        },
{
    let n: usize = toks.len();
    match peek(toks, p) {
        Some(x) => {
            let found = match x {
                Token::RBracket => bracket,
                Token::RParen => !bracket,
                _ => false,
            };
            if found {
                Ok(p + 1)
            } else if bracket {
                Err(ParseError::new(toks[p].1, "expected ']'"))
            } else {
                Err(ParseError::new(toks[p].1, "expected ')'"))
            }
        },
        None => if bracket {
            Err(ParseError::new(end, "unexpected end of input, expected ']'"))
        } else {
            Err(ParseError::new(end, "unexpected end of input, expected ')'"))
        },
    }
}

/// Whether the token is `x`'s kind of punctuation: `(`.
fn is_lparen(x: Option<&Token>) -> (r: bool)
    ensures
        r == (match x {
            Some(t) => Some(t@),
            None => None,
        } == Some(TokenView::LParen)),
{
    match x {
        Some(Token::LParen) => true,
        _ => false,
    }
}

/// Whether a name is one of the node types.
fn is_node_type_name(s: &str) -> (r: bool)
    ensures
        r == is_node_type(s@),
{
    str_eq(s, "comment") || str_eq(s, "text") || str_eq(s, "processing-instruction") || str_eq(
        s,
        "node",
    )
}

/// A copy of a qualified name.
fn copy_qname(q: &QName) -> (r: QName)
    ensures
        r@ == q@,
{
    QName { prefix: copy_opt_string(&q.prefix), local: q.local.clone() }
}

/// The `descendant-or-self::node()` step that `//` stands for.
fn desc_or_self_step() -> (r: Step)
    ensures
        step_view(&r) == dos_step(),
{
    let r = Step { axis: Axis::DescendantOrSelf, node_test: NodeTest::Node, predicates: Vec::new() };
    assert(exprs_view(r.predicates@) =~= Seq::<ExprView>::empty());
    r
}

/// The operator of level `level` that the token spells (see `op_at`).
fn op_token(x: Option<&Token>, level: u8) -> (r: Option<BinaryOp>)
    ensures
        r == op_at(
            level as nat,
            match x {
                Some(t) => Some(t@),
                None => None,
            },
        ),
{
    match x {
        Some(Token::Or) if level == 6 => Some(BinaryOp::Or),
        Some(Token::And) if level == 5 => Some(BinaryOp::And),
        Some(Token::Eq) if level == 4 => Some(BinaryOp::Equality(EqualityOp::Eq)),
        Some(Token::Ne) if level == 4 => Some(BinaryOp::Equality(EqualityOp::Ne)),
        Some(Token::Lt) if level == 3 => Some(BinaryOp::Relational(RelationalOp::Lt)),
        Some(Token::Gt) if level == 3 => Some(BinaryOp::Relational(RelationalOp::Gt)),
        Some(Token::Le) if level == 3 => Some(BinaryOp::Relational(RelationalOp::Le)),
        Some(Token::Ge) if level == 3 => Some(BinaryOp::Relational(RelationalOp::Ge)),
        Some(Token::Plus) if level == 2 => Some(BinaryOp::Additive(AdditiveOp::Add)),
        Some(Token::Minus) if level == 2 => Some(BinaryOp::Additive(AdditiveOp::Sub)),
        Some(Token::Star) if level == 1 => Some(BinaryOp::Multiplicative(MultiplicativeOp::Mul)),
        Some(Token::Div) if level == 1 => Some(BinaryOp::Multiplicative(MultiplicativeOp::Div)),
        Some(Token::Mod) if level == 1 => Some(BinaryOp::Multiplicative(MultiplicativeOp::Mod)),
        _ => None,
    }
}

/// The expression `lhs op rhs`.
fn make_binary(op: BinaryOp, lhs: Expr, rhs: Expr) -> (r: Expr)
    ensures
        expr_view(&r) == combine(op, expr_view(&lhs), expr_view(&rhs)),
{
    match op {
        BinaryOp::Or => Expr::Or(Box::new(lhs), Box::new(rhs)),
        BinaryOp::And => Expr::And(Box::new(lhs), Box::new(rhs)),
        BinaryOp::Equality(o) => Expr::Equality(Box::new(lhs), o, Box::new(rhs)),
        BinaryOp::Relational(o) => Expr::Relational(Box::new(lhs), o, Box::new(rhs)),
        BinaryOp::Additive(o) => Expr::Additive(Box::new(lhs), o, Box::new(rhs)),
        BinaryOp::Multiplicative(o) => Expr::Multiplicative(Box::new(lhs), o, Box::new(rhs)),
    }
}

/// `Expr` at `p` (see `p_expr`).
#[verifier::spinoff_prover]
fn parse_expr(toks: &Vec<(Token, usize)>, p: usize, end: usize) -> (r: Result<
    (Expr, usize),
    ParseError,
>)
    requires
        p <= toks@.len(),
    ensures
        match r {
            Ok((e, q)) => p_expr(tokens_view(toks@), p as int, end as int) == Ok::<
                (ExprView, int),
                ErrorView,
            >((expr_view(&e), q as int)) && p < q <= toks@.len(),
            Err(err) => p_expr(tokens_view(toks@), p as int, end as int) == Err::<
                (ExprView, int),
                ErrorView,
            >(err@),
        },
    decreases toks@.len() - p, 38int,
{
    parse_binary(toks, p, end, 6)
}

/// The binary operator level `level` at `p` (see `p_binary`).
#[verifier::spinoff_prover]
fn parse_binary(toks: &Vec<(Token, usize)>, p: usize, end: usize, level: u8) -> (r: Result<
    (Expr, usize),
    ParseError,
>)
    requires
        p <= toks@.len(),
        1 <= level <= 6,
    ensures
        match r {
            Ok((e, q)) => p_binary(tokens_view(toks@), p as int, end as int, level as nat) == Ok::<
                (ExprView, int),
                ErrorView,
            >((expr_view(&e), q as int)) && p < q <= toks@.len(),
            Err(err) => p_binary(tokens_view(toks@), p as int, end as int, level as nat) == Err::<
                (ExprView, int),
                ErrorView,
            >(err@),
        },
    decreases toks@.len() - p, 24 + 2 * level,
{
    let n: usize = toks.len();
    let ghost t = tokens_view(toks@);
    let first = if level <= 1 {
        parse_unary(toks, p, end)
    } else {
        parse_binary(toks, p, end, level - 1)
    };
    let (mut lhs, mut q) = match first {
        Err(e) => {
            return Err(e);
        },
        Ok(v) => v,
    };
    let ghost goal = binary_rest(t, q as int, end as int, level as nat, expr_view(&lhs));
    assert(goal == p_binary(t, p as int, end as int, level as nat));
    loop
        invariant
            t == tokens_view(toks@),
            n == toks@.len(),
            p < q <= toks@.len(),
            1 <= level <= 6,
            goal == p_binary(t, p as int, end as int, level as nat),
            binary_rest(t, q as int, end as int, level as nat, expr_view(&lhs)) == goal,
        decreases toks@.len() - q,
    {
        match op_token(peek(toks, q), level) {
            None => {
                return Ok((lhs, q));
            },
            Some(op) => {
                let next = if level <= 1 {
                    parse_unary(toks, q + 1, end)
                } else {
                    parse_binary(toks, q + 1, end, level - 1)
                };
                match next {
                    Err(e) => {
                        return Err(e);
                    },
                    Ok((rhs, q2)) => {
                        lhs = make_binary(op, lhs, rhs);
                        q = q2;
                    },
                }
            },
        }
    }
}

/// `UnaryExpr` at `p` (see `p_unary`).
#[verifier::spinoff_prover]
fn parse_unary(toks: &Vec<(Token, usize)>, p: usize, end: usize) -> (r: Result<
    (Expr, usize),
    ParseError,
>)
    requires
        p <= toks@.len(),
    ensures
        match r {
            Ok((e, q)) => p_unary(tokens_view(toks@), p as int, end as int) == Ok::<
                (ExprView, int),
                ErrorView,
            >((expr_view(&e), q as int)) && p < q <= toks@.len(),
            Err(err) => p_unary(tokens_view(toks@), p as int, end as int) == Err::<
                (ExprView, int),
                ErrorView,
            >(err@),
        },
    decreases toks@.len() - p, 22int,
{
    let n: usize = toks.len();
    match peek(toks, p) {
        Some(Token::Minus) => match parse_unary(toks, p + 1, end) {
            Err(e) => Err(e),
            Ok((operand, q)) => Ok((Expr::Negate(Box::new(operand)), q)),
        },
        _ => parse_union(toks, p, end),
    }
}

/// `UnionExpr` at `p` (see `p_union`).
#[verifier::spinoff_prover]
fn parse_union(toks: &Vec<(Token, usize)>, p: usize, end: usize) -> (r: Result<
    (Expr, usize),
    ParseError,
>)
    requires
        p <= toks@.len(),
    ensures
        match r {
            Ok((e, q)) => p_union(tokens_view(toks@), p as int, end as int) == Ok::<
                (ExprView, int),
                ErrorView,
            >((expr_view(&e), q as int)) && p < q <= toks@.len(),
            Err(err) => p_union(tokens_view(toks@), p as int, end as int) == Err::<
                (ExprView, int),
                ErrorView,
            >(err@),
        },
    decreases toks@.len() - p, 21int,
{
    let n: usize = toks.len();
    let ghost t = tokens_view(toks@);
    let (mut lhs, mut q) = match parse_path_expr(toks, p, end) {
        Err(e) => {
            return Err(e);
        },
        Ok(v) => v,
    };
    let ghost goal = union_rest(t, q as int, end as int, expr_view(&lhs));
    assert(goal == p_union(t, p as int, end as int));
    loop
        invariant
            t == tokens_view(toks@),
            n == toks@.len(),
            p < q <= toks@.len(),
            goal == p_union(t, p as int, end as int),
            union_rest(t, q as int, end as int, expr_view(&lhs)) == goal,
        decreases toks@.len() - q,
    {
        match peek(toks, q) {
            Some(Token::Pipe) => match parse_path_expr(toks, q + 1, end) {
                Err(e) => {
                    return Err(e);
                },
                Ok((rhs, q2)) => {
                    lhs = Expr::Union(Box::new(lhs), Box::new(rhs));
                    q = q2;
                },
            },
            _ => {
                return Ok((lhs, q));
            },
        }
    }
}

/// Whether the node-type name at `p` is followed by `(`.
fn peek_is_node_type_call(toks: &Vec<(Token, usize)>, p: usize) -> (r: bool)
    ensures
        r == node_type_call(tokens_view(toks@), p as int),
{
    match peek(toks, p) {
        Some(Token::Name { prefix: None, local }) => is_node_type_name(local.as_str()) && p
            < toks.len() - 1 && is_lparen(peek(toks, p + 1)),
        _ => false,
    }
}

/// The axis named at `p`, when `::` follows (see `axis_at`).
fn peek_axis(toks: &Vec<(Token, usize)>, p: usize) -> (r: Option<Axis>)
    ensures
        r == axis_at(tokens_view(toks@), p as int),
{
    if toks.len() > 0 && p < toks.len() - 1 {
        match (peek(toks, p), peek(toks, p + 1)) {
            (Some(Token::Name { prefix: None, local }), Some(Token::ColonColon)) => Axis::from_name(
                local.as_str(),
            ),
            _ => None,
        }
    } else {
        None
    }
}

/// Whether a location path starts at `p` (see `starts_location_path`).
fn starts_location_path_at(toks: &Vec<(Token, usize)>, p: usize) -> (r: bool)
    ensures
        r == starts_location_path(tokens_view(toks@), p as int),
{
    match peek(toks, p) {
        Some(Token::Slash) | Some(Token::SlashSlash) | Some(Token::Dot) | Some(Token::DotDot) | Some(
            Token::At,
        ) | Some(Token::Wildcard) | Some(Token::NsWildcard(_)) => true,
        Some(Token::Name { .. }) => {
            if peek_is_node_type_call(toks, p) {
                true
            } else {
                !(p < toks.len() - 1 && is_lparen(peek(toks, p + 1)))
            }
        },
        _ => false,
    }
}

/// Whether a step can start at `p` (see `can_start_step`).
fn can_start_step_at(toks: &Vec<(Token, usize)>, p: usize) -> (r: bool)
    ensures
        r == can_start_step(tokens_view(toks@), p as int),
{
    match peek(toks, p) {
        Some(Token::Dot) | Some(Token::DotDot) | Some(Token::At) | Some(Token::Wildcard) | Some(
            Token::NsWildcard(_),
        ) | Some(Token::Name { .. }) => true,
        _ => false,
    }
}

/// The path expression made of the location path `l`.
fn location_expr(l: LocationPath) -> (r: Expr)
    ensures
        expr_view(&r) == ExprView::Path(PathView::Location(location_view(&l))),
{
    let ghost lv = location_view(&l);
    let pe = PathExpr::Location(l);
    assert(path_view(&pe) == PathView::Location(lv));
    Expr::Path(pe)
}

/// The path expression made of the filter expression `f` alone.
fn filter_path_expr(f: FilterExpr) -> (r: Expr)
    ensures
        expr_view(&r) == ExprView::Path(PathView::Filter(filter_view(&f))),
{
    let ghost fv = filter_view(&f);
    let pe = PathExpr::Filter(f);
    assert(path_view(&pe) == PathView::Filter(fv));
    Expr::Path(pe)
}

/// The path expression `f/steps`.
fn filter_location_expr(f: FilterExpr, steps: Vec<Step>) -> (r: Expr)
    ensures
        expr_view(&r) == ExprView::Path(
            PathView::FilterLocation(
                filter_view(&f),
                LocationPathView { is_absolute: false, steps: steps_view(steps@) },
            ),
        ),
{
    let ghost fv = filter_view(&f);
    let ghost sv = steps_view(steps@);
    let l = LocationPath { is_absolute: false, steps };
    assert(location_view(&l) == LocationPathView { is_absolute: false, steps: sv });
    let ghost lv = location_view(&l);
    let pe = PathExpr::FilterLocation(f, l);
    assert(path_view(&pe) == PathView::FilterLocation(fv, lv));
    Expr::Path(pe)
}

/// `descendant-or-self::node()` followed by `steps`.
fn prepend_desc_or_self(steps: Vec<Step>) -> (r: Vec<Step>)
    ensures
        steps_view(r@) == seq![dos_step()] + steps_view(steps@),
{
    let mut steps = steps;
    let ghost before = steps@;
    let dos = desc_or_self_step();
    steps.insert(0, dos);
    proof {
        lemma_steps_prepend(dos, before);
        assert(steps@ =~= seq![dos] + before);
    }
    steps
}

/// `PathExpr` at `p` (see `p_path`).
#[verifier::spinoff_prover]
fn parse_path_expr(toks: &Vec<(Token, usize)>, p: usize, end: usize) -> (r: Result<
    (Expr, usize),
    ParseError,
>)
    requires
        p <= toks@.len(),
    ensures
        match r {
            Ok((e, q)) => p_path(tokens_view(toks@), p as int, end as int) == Ok::<
                (ExprView, int),
                ErrorView,
            >((expr_view(&e), q as int)) && p < q <= toks@.len(),
            Err(err) => p_path(tokens_view(toks@), p as int, end as int) == Err::<
                (ExprView, int),
                ErrorView,
            >(err@),
        },
    decreases toks@.len() - p, 19int,
{
    let n: usize = toks.len();
    let ghost t = tokens_view(toks@);
    if starts_location_path_at(toks, p) {
        match parse_location_path(toks, p, end) {
            Err(e) => Err(e),
            Ok((loc, q)) => Ok((location_expr(loc), q)),
        }
    } else {
        let (filter, q1) = match parse_filter_expr(toks, p, end) {
            Err(e) => {
                return Err(e);
            },
            Ok(v) => v,
        };
        let slash = match peek(toks, q1) {
            Some(Token::Slash) => 1u8,
            Some(Token::SlashSlash) => 2u8,
            _ => 0u8,
        };
        assert(slash == 0 <==> !(tok(t, q1 as int) == Some(TokenView::Slash) || tok(t, q1 as int)
            == Some(TokenView::SlashSlash)));
        assert(slash == 1 <==> tok(t, q1 as int) == Some(TokenView::Slash));
        if slash == 0 {
            return Ok((filter_path_expr(filter), q1));
        }
        let (steps, q2) = match parse_step_sequence(toks, q1 + 1, end) {
            Err(e) => {
                return Err(e);
            },
            Ok(v) => v,
        };
        let steps = if slash == 2 {
            prepend_desc_or_self(steps)
        } else {
            steps
        };
        Ok((filter_location_expr(filter, steps), q2))
    }
}

/// The location path of the given steps.
fn location_path(is_absolute: bool, steps: Vec<Step>) -> (r: LocationPath)
    ensures
        location_view(&r) == (LocationPathView { is_absolute, steps: steps_view(steps@) }),
{
    LocationPath { is_absolute, steps }
}

/// `LocationPath` at `p` (see `p_location`).
#[verifier::spinoff_prover]
fn parse_location_path(toks: &Vec<(Token, usize)>, p: usize, end: usize) -> (r: Result<
    (LocationPath, usize),
    ParseError,
>)
    requires
        p <= toks@.len(),
    ensures
        match r {
            Ok((l, q)) => p_location(tokens_view(toks@), p as int, end as int) == Ok::<
                (LocationPathView, int),
                ErrorView,
            >((location_view(&l), q as int)) && p < q <= toks@.len(),
            Err(err) => p_location(tokens_view(toks@), p as int, end as int) == Err::<
                (LocationPathView, int),
                ErrorView,
            >(err@),
        },
    decreases toks@.len() - p, 18int,
{
    let n: usize = toks.len();
    let ghost t = tokens_view(toks@);
    match peek(toks, p) {
        Some(Token::Slash) => {
            if can_start_step_at(toks, p + 1) {
                match parse_step_sequence(toks, p + 1, end) {
                    Err(e) => Err(e),
                    Ok((steps, q)) => Ok((location_path(true, steps), q)),
                }
            } else {
                Ok((location_path(true, Vec::new()), p + 1))
            }
        },
        Some(Token::SlashSlash) => match parse_step_sequence(toks, p + 1, end) {
            Err(e) => Err(e),
            Ok((steps, q)) => Ok((location_path(true, prepend_desc_or_self(steps)), q)),
        },
        _ => {
            assert(tok(t, p as int) != Some(TokenView::Slash) && tok(t, p as int) != Some(
                TokenView::SlashSlash,
            ));
            match parse_step_sequence(toks, p, end) {
                Err(e) => Err(e),
                Ok((steps, q)) => Ok((location_path(false, steps), q)),
            }
        },
    }
}

/// `steps` followed by `step`, with `descendant-or-self::node()` between
/// them where `dos`.
fn push_steps(steps: Vec<Step>, dos: bool, step: Step) -> (r: Vec<Step>)
    ensures
        steps_view(r@) == if dos {
            steps_view(steps@).push(dos_step()).push(step_view(&step))
        } else {
            steps_view(steps@).push(step_view(&step))
        },
{
    let mut steps = steps;
    if dos {
        let d = desc_or_self_step();
        proof {
            lemma_steps_push(steps@, d);
        }
        steps.push(d);
    }
    proof {
        lemma_steps_push(steps@, step);
    }
    steps.push(step);
    steps
}

/// `RelativeLocationPath` at `p` (see `p_steps`).
#[verifier::spinoff_prover]
fn parse_step_sequence(toks: &Vec<(Token, usize)>, p: usize, end: usize) -> (r: Result<
    (Vec<Step>, usize),
    ParseError,
>)
    requires
        p <= toks@.len(),
    ensures
        match r {
            Ok((v, q)) => p_steps(tokens_view(toks@), p as int, end as int) == Ok::<
                (Seq<StepView>, int),
                ErrorView,
            >((steps_view(v@), q as int)) && p < q <= toks@.len(),
            Err(err) => p_steps(tokens_view(toks@), p as int, end as int) == Err::<
                (Seq<StepView>, int),
                ErrorView,
            >(err@),
        },
    decreases toks@.len() - p, 16int,
{
    let (first, q) = match parse_step(toks, p, end) {
        Err(e) => {
            return Err(e);
        },
        Ok(v) => v,
    };
    let empty: Vec<Step> = Vec::new();
    assert(steps_view(empty@) =~= Seq::<StepView>::empty());
    let steps = push_steps(empty, false, first);
    assert(steps_view(steps@) =~= seq![step_view(&first)]);
    parse_steps_rest(toks, q, end, steps)
}

/// What follows the steps `steps` at `p` (see `steps_rest`).
#[verifier::spinoff_prover]
#[verifier::rlimit(40)]
fn parse_steps_rest(toks: &Vec<(Token, usize)>, p: usize, end: usize, steps: Vec<Step>) -> (r:
    Result<(Vec<Step>, usize), ParseError>)
    requires
        p <= toks@.len(),
    ensures
        match r {
            Ok((v, q)) => steps_rest(tokens_view(toks@), p as int, end as int, steps_view(steps@))
                == Ok::<(Seq<StepView>, int), ErrorView>((steps_view(v@), q as int)) && p <= q
                <= toks@.len(),
            Err(err) => steps_rest(tokens_view(toks@), p as int, end as int, steps_view(steps@))
                == Err::<(Seq<StepView>, int), ErrorView>(err@),
        },
    decreases toks@.len() - p, 15int,
{
    let n: usize = toks.len();
    let ghost t = tokens_view(toks@);
    let slash = match peek(toks, p) {
        Some(Token::Slash) => 1u8,
        Some(Token::SlashSlash) => 2u8,
        _ => 0u8,
    };
    if slash == 0 {
        assert(!(tok(t, p as int) == Some(TokenView::Slash) || tok(t, p as int) == Some(
            TokenView::SlashSlash,
        )));
        return Ok((steps, p));
    }
    assert(slash == 1 <==> tok(t, p as int) == Some(TokenView::Slash));
    let ghost acc = steps_view(steps@);
    match parse_step(toks, p + 1, end) {
        Err(e) => {
            assert(steps_rest(t, p as int, end as int, acc) == Err::<(Seq<StepView>, int), ErrorView>(e@));
            Err(e)
        },
        Ok((step, q)) => {
            let ghost sv = step_view(&step);
            let steps2 = push_steps(steps, slash == 2, step);
            assert(steps_view(steps2@) == if tok(t, p as int) == Some(TokenView::Slash) {
                acc.push(sv)
            } else {
                acc.push(dos_step()).push(sv)
            });
            assert(steps_rest(t, p as int, end as int, acc) == steps_rest(t, q as int, end as int, steps_view(steps2@)));
            parse_steps_rest(toks, q, end, steps2)
        },
    }
}

/// The axis of the step at `p` and where its node test starts: `@` for
/// the attribute axis, `name::` for the named axis, the child axis
/// otherwise.
fn step_axis(toks: &Vec<(Token, usize)>, p: usize) -> (r: (Axis, usize))
    requires
        p <= toks@.len(),
    ensures
        (r.0, r.1 as int) == (if tok(tokens_view(toks@), p as int) == Some(TokenView::At) {
            (Axis::Attribute, p + 1)
        } else if axis_at(tokens_view(toks@), p as int) is Some {
            (axis_at(tokens_view(toks@), p as int).unwrap(), p + 2)
        } else {
            (Axis::Child, p as int)
        }),
        r.1 <= toks@.len(),
{
    let n: usize = toks.len();
    match peek(toks, p) {
        Some(Token::At) => {
            return (Axis::Attribute, p + 1);
        },
        _ => {},
    }
    match peek_axis(toks, p) {
        Some(a) => (a, p + 2),
        None => (Axis::Child, p),
    }
}

/// The step of the given parts.
fn make_step(axis: Axis, node_test: NodeTest, predicates: Vec<Expr>) -> (r: Step)
    ensures
        step_view(&r) == (StepView {
            axis,
            node_test: node_test@,
            predicates: exprs_view(predicates@),
        }),
        predicates@.len() == 0 ==> step_view(&r).predicates == Seq::<ExprView>::empty(),
{
    let r = Step { axis, node_test, predicates };
    assert(r.predicates@.len() == 0 ==> exprs_view(r.predicates@) =~= Seq::<ExprView>::empty());
    r
}

/// `Step` at `p` (see `p_step`).
#[verifier::spinoff_prover]
#[verifier::rlimit(60)]
fn parse_step(toks: &Vec<(Token, usize)>, p: usize, end: usize) -> (r: Result<
    (Step, usize),
    ParseError,
>)
    requires
        p <= toks@.len(),
    ensures
        match r {
            Ok((s, q)) => p_step(tokens_view(toks@), p as int, end as int) == Ok::<
                (StepView, int),
                ErrorView,
            >((step_view(&s), q as int)) && p < q <= toks@.len(),
            Err(err) => p_step(tokens_view(toks@), p as int, end as int) == Err::<
                (StepView, int),
                ErrorView,
            >(err@),
        },
    decreases toks@.len() - p, 14int,
{
    let n: usize = toks.len();
    let ghost t = tokens_view(toks@);
    match peek(toks, p) {
        Some(Token::Dot) => {
            return Ok((make_step(Axis::SelfAxis, NodeTest::Node, Vec::new()), p + 1));
        },
        Some(Token::DotDot) => {
            return Ok((make_step(Axis::Parent, NodeTest::Node, Vec::new()), p + 1));
        },
        _ => {},
    }
    assert(tok(t, p as int) != Some(TokenView::Dot) && tok(t, p as int) != Some(TokenView::DotDot));
    let (axis, q) = step_axis(toks, p);
    let (node_test, q1) = match parse_node_test(toks, q, end) {
        Err(e) => {
            assert(p_step(t, p as int, end as int) == Err::<(StepView, int), ErrorView>(e@));
            return Err(e);
        },
        Ok(v) => v,
    };
    let ghost nv = node_test@;
    match parse_predicates(toks, q1, end) {
        Err(e) => {
            assert(p_step(t, p as int, end as int) == Err::<(StepView, int), ErrorView>(e@));
            Err(e)
        },
        Ok((predicates, q2)) => {
            let ghost pv = exprs_view(predicates@);
            assert(p_step(t, p as int, end as int) == Ok::<(StepView, int), ErrorView>(
                (StepView { axis, node_test: nv, predicates: pv }, q2 as int),
            ));
            Ok((make_step(axis, node_test, predicates), q2))
        },
    }
}

/// `Predicate*` at `p` (see `p_predicates`).
#[verifier::spinoff_prover]
fn parse_predicates(toks: &Vec<(Token, usize)>, p: usize, end: usize) -> (r: Result<
    (Vec<Expr>, usize),
    ParseError,
>)
    requires
        p <= toks@.len(),
    ensures
        match r {
            Ok((v, q)) => p_predicates(tokens_view(toks@), p as int, end as int, Seq::empty())
                == Ok::<(Seq<ExprView>, int), ErrorView>((exprs_view(v@), q as int)) && p <= q
                <= toks@.len(),
            Err(err) => p_predicates(tokens_view(toks@), p as int, end as int, Seq::empty())
                == Err::<(Seq<ExprView>, int), ErrorView>(err@),
        },
    decreases toks@.len() - p, 13int,
{
    let n: usize = toks.len();
    let ghost t = tokens_view(toks@);
    let mut preds: Vec<Expr> = Vec::new();
    let mut q: usize = p;
    assert(exprs_view(preds@) =~= Seq::<ExprView>::empty());
    loop
        invariant
            t == tokens_view(toks@),
            n == toks@.len(),
            p <= q <= toks@.len(),
            p_predicates(t, q as int, end as int, exprs_view(preds@)) == p_predicates(
                t,
                p as int,
                end as int,
                Seq::empty(),
            ),
        decreases toks@.len() - q,
    {
        match peek(toks, q) {
            Some(Token::LBracket) => {},
            _ => {
                return Ok((preds, q));
            },
        }
        let (e, q1) = match parse_expr(toks, q + 1, end) {
            Err(err) => {
                return Err(err);
            },
            Ok(v) => v,
        };
        let q2 = match expect_close(toks, q1, end, true) {
            Err(err) => {
                return Err(err);
            },
            Ok(v) => v,
        };
        proof {
            lemma_exprs_push(preds@, e);
        }
        preds.push(e);
        q = q2;
    }
}

/// `NodeTest` at `p` (see `p_node_test`).
#[verifier::spinoff_prover]
fn parse_node_test(toks: &Vec<(Token, usize)>, p: usize, end: usize) -> (r: Result<
    (NodeTest, usize),
    ParseError,
>)
    requires
        p <= toks@.len(),
    ensures
        match r {
            Ok((n, q)) => p_node_test(tokens_view(toks@), p as int, end as int) == Ok::<
                (NodeTestView, int),
                ErrorView,
            >((n@, q as int)) && p < q <= toks@.len(),
            Err(err) => p_node_test(tokens_view(toks@), p as int, end as int) == Err::<
                (NodeTestView, int),
                ErrorView,
            >(err@),
        },
    decreases toks@.len() - p, 12int,
{
    let n: usize = toks.len();
    proof {
        reveal(p_node_test);
    }
    match peek(toks, p) {
        Some(Token::Wildcard) => Ok((NodeTest::AnyName, p + 1)),
        Some(Token::NsWildcard(prefix)) => Ok((NodeTest::NamespaceWildcard(prefix.clone()), p + 1)),
        Some(Token::Name { prefix, local }) => {
            if !(p < n - 1 && is_lparen(peek(toks, p + 1))) {
                return Ok(
                    (
                        NodeTest::QName(
                            QName { prefix: copy_opt_string(prefix), local: local.clone() },
                        ),
                        p + 1,
                    ),
                );
            }
            if !(prefix.is_none() && is_node_type_name(local.as_str())) {
                return Err(
                    ParseError::new(toks[p].1, "function call is not a valid node test"),
                );
            }
            if str_eq(local.as_str(), "processing-instruction") {
                match peek(toks, p + 2) {
                    Some(Token::Literal(target)) => {
                        let target = target.clone();
                        match expect_close(toks, p + 3, end, false) {
                            Err(e) => Err(e),
                            Ok(q) => Ok((NodeTest::ProcessingInstruction(Some(target)), q)),
                        }
                    },
                    _ => match expect_close(toks, p + 2, end, false) {
                        Err(e) => Err(e),
                        Ok(q) => Ok((NodeTest::ProcessingInstruction(None), q)),
                    },
                }
            } else {
                let test = if str_eq(local.as_str(), "node") {
                    NodeTest::Node
                } else if str_eq(local.as_str(), "text") {
                    NodeTest::Text
                } else {
                    NodeTest::Comment
                };
                match expect_close(toks, p + 2, end, false) {
                    Err(e) => Err(e),
                    Ok(q) => Ok((test, q)),
                }
            }
        },
        Some(_) => Err(ParseError::new(toks[p].1, "expected a node test")),
        None => Err(ParseError::new(end, "unexpected end of input, expected a node test")),
    }
}

/// `FilterExpr` at `p` (see `p_filter`).
#[verifier::spinoff_prover]
fn parse_filter_expr(toks: &Vec<(Token, usize)>, p: usize, end: usize) -> (r: Result<
    (FilterExpr, usize),
    ParseError,
>)
    requires
        p <= toks@.len(),
    ensures
        match r {
            Ok((f, q)) => p_filter(tokens_view(toks@), p as int, end as int) == Ok::<
                (FilterView, int),
                ErrorView,
            >((filter_view(&f), q as int)) && p < q <= toks@.len(),
            Err(err) => p_filter(tokens_view(toks@), p as int, end as int) == Err::<
                (FilterView, int),
                ErrorView,
            >(err@),
        },
    decreases toks@.len() - p, 17int,
{
    let n: usize = toks.len();
    let (primary, q1) = match parse_primary_expr(toks, p, end) {
        Err(e) => {
            return Err(e);
        },
        Ok(v) => v,
    };
    match parse_predicates(toks, q1, end) {
        Err(e) => Err(e),
        Ok((predicates, q2)) => Ok((FilterExpr { primary, predicates }, q2)),
    }
}

/// `PrimaryExpr` at `p` (see `p_primary`).
#[verifier::spinoff_prover]
fn parse_primary_expr(toks: &Vec<(Token, usize)>, p: usize, end: usize) -> (r: Result<
    (PrimaryExpr, usize),
    ParseError,
>)
    requires
        p <= toks@.len(),
    ensures
        match r {
            Ok((x, q)) => p_primary(tokens_view(toks@), p as int, end as int) == Ok::<
                (PrimaryView, int),
                ErrorView,
            >((primary_view(&x), q as int)) && p < q <= toks@.len(),
            Err(err) => p_primary(tokens_view(toks@), p as int, end as int) == Err::<
                (PrimaryView, int),
                ErrorView,
            >(err@),
        },
    decreases toks@.len() - p, 11int,
{
    let n: usize = toks.len();
    match peek(toks, p) {
        Some(Token::Variable(q)) => Ok((PrimaryExpr::Variable(copy_qname(q)), p + 1)),
        Some(Token::LParen) => {
            let (e, q1) = match parse_expr(toks, p + 1, end) {
                Err(err) => {
                    return Err(err);
                },
                Ok(v) => v,
            };
            match expect_close(toks, q1, end, false) {
                Err(err) => Err(err),
                Ok(q2) => Ok((PrimaryExpr::Parenthesized(Box::new(e)), q2)),
            }
        },
        Some(Token::Literal(s)) => Ok((PrimaryExpr::Literal(s.clone()), p + 1)),
        Some(Token::Number(s)) => Ok((PrimaryExpr::Number(s.clone()), p + 1)),
        Some(Token::Name { prefix, local }) => {
            if !(p < n - 1 && is_lparen(peek(toks, p + 1))) {
                return Err(ParseError::new(toks[p].1, "expected an expression"));
            }
            let name = QName { prefix: copy_opt_string(prefix), local: local.clone() };
            let (args, q1) = match parse_argument_list(toks, p + 2, end) {
                Err(err) => {
                    return Err(err);
                },
                Ok(v) => v,
            };
            match expect_close(toks, q1, end, false) {
                Err(err) => Err(err),
                Ok(q2) => Ok((PrimaryExpr::Function(FunctionCall { name, args }), q2)),
            }
        },
        Some(_) => Err(ParseError::new(toks[p].1, "expected an expression")),
        None => Err(ParseError::new(end, "unexpected end of input, expected an expression")),
    }
}

/// The arguments of a function call at `p` (see `p_args`).
#[verifier::spinoff_prover]
fn parse_argument_list(toks: &Vec<(Token, usize)>, p: usize, end: usize) -> (r: Result<
    (Vec<Expr>, usize),
    ParseError,
>)
    requires
        p <= toks@.len(),
    ensures
        match r {
            Ok((v, q)) => p_args(tokens_view(toks@), p as int, end as int) == Ok::<
                (Seq<ExprView>, int),
                ErrorView,
            >((exprs_view(v@), q as int)) && p <= q <= toks@.len(),
            Err(err) => p_args(tokens_view(toks@), p as int, end as int) == Err::<
                (Seq<ExprView>, int),
                ErrorView,
            >(err@),
        },
    decreases toks@.len() - p, 40int,
{
    let n: usize = toks.len();
    let ghost t = tokens_view(toks@);
    let mut args: Vec<Expr> = Vec::new();
    match peek(toks, p) {
        Some(Token::RParen) => {
            assert(exprs_view(args@) =~= Seq::<ExprView>::empty());
            return Ok((args, p));
        },
        _ => {},
    }
    let (first, mut q) = match parse_expr(toks, p, end) {
        Err(e) => {
            return Err(e);
        },
        Ok(v) => v,
    };
    proof {
        lemma_exprs_push(args@, first);
    }
    args.push(first);
    proof {
        assert(exprs_view(args@) =~= seq![expr_view(&first)]);
    }
    let ghost goal = args_rest(t, q as int, end as int, exprs_view(args@));
    assert(goal == p_args(t, p as int, end as int));
    loop
        invariant
            t == tokens_view(toks@),
            n == toks@.len(),
            p < q <= toks@.len(),
            goal == p_args(t, p as int, end as int),
            args_rest(t, q as int, end as int, exprs_view(args@)) == goal,
        decreases toks@.len() - q,
    {
        match peek(toks, q) {
            Some(Token::Comma) => {},
            _ => {
                return Ok((args, q));
            },
        }
        match parse_expr(toks, q + 1, end) {
            Err(e) => {
                return Err(e);
            },
            Ok((e, q2)) => {
                proof {
                    lemma_exprs_push(args@, e);
                }
                args.push(e);
                q = q2;
            },
        }
    }
}

/// Parses an XPath 1.0 expression into its syntax tree (see `parse_spec`):
/// errors carry the byte offset of the token where the expression went
/// wrong, or the length of the expression where it ended too early.
pub fn parse(expr: &str) -> (r: Result<Expr, ParseError>)
    ensures
        match r {
            Ok(e) => parse_spec(expr@, expr.len() as int) == Ok::<ExprView, ErrorView>(
                expr_view(&e),
            ),
            Err(err) => parse_spec(expr@, expr.len() as int) == Err::<ExprView, ErrorView>(err@),
        },
{
    let tokens = match tokenize(expr) {
        Err(e) => {
            return Err(e);
        },
        Ok(t) => t,
    };
    if tokens.len() == 0 {
        return Err(ParseError::new(0, "empty expression"));
    }
    let end = expr.len();
    match parse_expr(&tokens, 0, end) {
        Err(e) => Err(e),
        Ok((e, p)) => {
            if p != tokens.len() {
                Err(ParseError::new(current_pos(&tokens, p, end), "unexpected trailing input"))
            } else {
                Ok(e)
            }
        },
    }
}

} // verus!
