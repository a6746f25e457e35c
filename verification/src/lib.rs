pub mod abbreviations;
pub mod ast;
pub mod axes;
pub mod chars;
pub mod document;
pub mod eval;
pub mod functions;
pub mod lexer;
pub mod lexer_laws;
pub mod parser;
pub mod seqs;

pub use ast::{
    AdditiveOp, Axis, EqualityOp, Expr, FilterExpr, FunctionCall, LocationPath,
    MultiplicativeOp, NodeTest, PathExpr, PrimaryExpr, QName, RelationalOp, Step,
};
pub use axes::{
    ancestor, ancestor_or_self, attribute, child, descendant, descendant_or_self, following,
    following_sibling, namespace, parent, preceding, preceding_sibling, self_axis,
};
pub use document::{Document, ExpandedName, Node, NodeKind};
pub use eval::{EvalError, NamespaceBinding};
pub use parser::{parse, ParseError};
