//! The abbreviated syntax of XPath 1.0 and what it stands for: `@` for
//! `attribute::`, a bare node test for `child::`, `.` for `self::node()`,
//! `..` for `parent::node()` and `//` for `/descendant-or-self::node()/`.
//! The laws here relate the grammar (`crate::parser`) on the two spellings.
use vstd::prelude::*;
use crate::ast::{
    axis_named, Axis, ExprView, FilterView, LocationPathView, NodeTestView, PathView, PrimaryView,
    QNameView, StepView,
};
use crate::functions::{is_digit, is_xml_ws};
use crate::lexer_laws::{error_moved, law_lex_rest, lexed_moved, tokens_moved};
use crate::lexer::{
    byte_pos, lex, lex_from, name_char, name_chars_end, name_or_operator, name_start,
    operand_follows, scan, scan_name, single_char_token, ws_end, TokenView,
};
use crate::parser::{
    args_rest, axis_at, binary_rest, can_start_step, combine, dos_step, expect, is_node_type,
    node_type_call, op_at, p_args, p_binary, p_expr, p_filter, p_location, p_node_test, p_path,
    p_predicates, p_primary, p_step, p_steps, p_unary, p_union, parse_spec, pos_of, starts_location_path,
    steps_rest, tok, union_rest, ErrorView, Parsed, Toks,
};

verus! {

// ---- The grammar reads only what lies ahead -----------------------------

/// The tokens of `u` from index `a` on are those of `v` from index `b` on,
/// each `d` bytes further into its text.
pub open spec fn same_from(u: Toks, a: int, v: Toks, b: int, d: int) -> bool {
    &&& 0 <= a <= u.len()
    &&& 0 <= b <= v.len()
    &&& u.skip(a) == tokens_moved(v.skip(b), d)
}

/// A parse result with its position moved by `s` tokens, or its error by
/// `d` bytes.
pub open spec fn moved<T>(r: Parsed<T>, s: int, d: int) -> Parsed<T> {
    match r {
        Ok((x, q)) => Ok((x, q + s)),
        Err(e) => Err(error_moved(e, d)),
    }
}

#[verifier::spinoff_prover]
proof fn lemma_same_from_ahead(u: Toks, a: int, v: Toks, b: int, d: int, k: int)
    requires
        same_from(u, a, v, b, d),
        0 <= k <= u.len() - a,
    ensures
        same_from(u, a + k, v, b + k, d),
        u.len() - a == v.len() - b,
        tok(u, a + k) == tok(v, b + k),
        a + k < u.len() ==> u[a + k].0 == v[b + k].0 && u[a + k].1 == v[b + k].1 + d,
{
    assert(u.skip(a).len() == v.skip(b).len());
    assert(u.skip(a + k) =~= u.skip(a).skip(k));
    assert(tokens_moved(v.skip(b + k), d) =~= tokens_moved(v.skip(b), d).skip(k));
    if a + k < u.len() {
        assert(u[a + k] == u.skip(a)[k]);
        assert(v[b + k] == v.skip(b)[k]);
    }
}

/// What decides a step or a path at `a` is the same at `b`.
#[verifier::spinoff_prover]
proof fn lemma_same_from_tests(u: Toks, a: int, v: Toks, b: int, end: int, d: int)
    requires
        same_from(u, a, v, b, d),
    ensures
        tok(u, a) == tok(v, b),
        pos_of(u, a, end + d) == pos_of(v, b, end) + d,
        starts_location_path(u, a) == starts_location_path(v, b),
        can_start_step(u, a) == can_start_step(v, b),
        axis_at(u, a) == axis_at(v, b),
        node_type_call(u, a) == node_type_call(v, b),
        forall|bracket: bool|
            #[trigger] expect(u, a, end + d, bracket) == match expect(v, b, end, bracket) {
                Ok(q) => Ok(q + (a - b)),
                Err(e) => Err::<int, ErrorView>(error_moved(e, d)),
            },
{
    lemma_same_from_ahead(u, a, v, b, d, 0);
    if a < u.len() {
        lemma_same_from_ahead(u, a, v, b, d, 1);
    }
}

#[verifier::spinoff_prover]
proof fn lemma_moves_expr(u: Toks, a: int, v: Toks, b: int, end: int, d: int)
    requires
        same_from(u, a, v, b, d),
    ensures
        p_expr(u, a, end + d) == moved(p_expr(v, b, end), a - b, d),
    decreases u.len() - a, 38int,
{
    lemma_moves_binary(u, a, v, b, end, d, 6);
}

#[verifier::spinoff_prover]
proof fn lemma_moves_binary(u: Toks, a: int, v: Toks, b: int, end: int, d: int, level: nat)
    requires
        same_from(u, a, v, b, d),
    ensures
        p_binary(u, a, end + d, level) == moved(p_binary(v, b, end, level), a - b, d),
    decreases u.len() - a, 24 + 2 * level,
{
    lemma_same_from_ahead(u, a, v, b, d, 0);
    if level <= 1 {
        lemma_moves_unary(u, a, v, b, end, d);
    } else {
        lemma_moves_binary(u, a, v, b, end, d, (level - 1) as nat);
    }
    let first = if level <= 1 {
        p_unary(v, b, end)
    } else {
        p_binary(v, b, end, (level - 1) as nat)
    };
    if let Ok((lhs, p1)) = first {
        if b <= p1 <= v.len() {
            lemma_same_from_ahead(u, a, v, b, d, p1 - b);
            lemma_moves_binary_rest(u, p1 + (a - b), v, p1, end, d, level, lhs);
        }
    }
}

#[verifier::spinoff_prover]
proof fn lemma_moves_binary_rest(
    u: Toks,
    a: int,
    v: Toks,
    b: int,
    end: int,
    d: int,
    level: nat,
    lhs: ExprView,
)
    requires
        same_from(u, a, v, b, d),
    ensures
        binary_rest(u, a, end + d, level, lhs) == moved(binary_rest(v, b, end, level, lhs), a - b, d),
    decreases u.len() - a, 23 + 2 * level,
{
    lemma_same_from_tests(u, a, v, b, end, d);
    if let Some(op) = op_at(level, tok(v, b)) {
        lemma_same_from_ahead(u, a, v, b, d, 1);
        if level <= 1 {
            lemma_moves_unary(u, a + 1, v, b + 1, end, d);
        } else {
            lemma_moves_binary(u, a + 1, v, b + 1, end, d, (level - 1) as nat);
        }
        let next = if level <= 1 {
            p_unary(v, b + 1, end)
        } else {
            p_binary(v, b + 1, end, (level - 1) as nat)
        };
        if let Ok((rhs, p2)) = next {
            if b < p2 <= v.len() {
                lemma_same_from_ahead(u, a, v, b, d, p2 - b);
                lemma_moves_binary_rest(u, p2 + (a - b), v, p2, end, d, level, combine(op, lhs, rhs));
            }
        }
    }
}

#[verifier::spinoff_prover]
proof fn lemma_moves_unary(u: Toks, a: int, v: Toks, b: int, end: int, d: int)
    requires
        same_from(u, a, v, b, d),
    ensures
        p_unary(u, a, end + d) == moved(p_unary(v, b, end), a - b, d),
    decreases u.len() - a, 22int,
{
    lemma_same_from_tests(u, a, v, b, end, d);
    if tok(v, b) == Some(TokenView::Minus) {
        lemma_same_from_ahead(u, a, v, b, d, 1);
        lemma_moves_unary(u, a + 1, v, b + 1, end, d);
    } else {
        lemma_moves_union(u, a, v, b, end, d);
    }
}

#[verifier::spinoff_prover]
#[verifier::rlimit(40)]
proof fn lemma_moves_union(u: Toks, a: int, v: Toks, b: int, end: int, d: int)
    requires
        same_from(u, a, v, b, d),
    ensures
        p_union(u, a, end + d) == moved(p_union(v, b, end), a - b, d),
    decreases u.len() - a, 21int,
{
    lemma_same_from_ahead(u, a, v, b, d, 0);
    lemma_moves_path(u, a, v, b, end, d);
    if let Ok((lhs, p1)) = p_path(v, b, end) {
        if b <= p1 <= v.len() {
            lemma_same_from_ahead(u, a, v, b, d, p1 - b);
            lemma_moves_union_rest(u, p1 + (a - b), v, p1, end, d, lhs);
        }
    }
}

#[verifier::spinoff_prover]
proof fn lemma_moves_union_rest(u: Toks, a: int, v: Toks, b: int, end: int, d: int, lhs: ExprView)
    requires
        same_from(u, a, v, b, d),
    ensures
        union_rest(u, a, end + d, lhs) == moved(union_rest(v, b, end, lhs), a - b, d),
    decreases u.len() - a, 20int,
{
    lemma_same_from_tests(u, a, v, b, end, d);
    if tok(v, b) == Some(TokenView::Pipe) {
        lemma_same_from_ahead(u, a, v, b, d, 1);
        lemma_moves_path(u, a + 1, v, b + 1, end, d);
        if let Ok((rhs, p2)) = p_path(v, b + 1, end) {
            if b < p2 <= v.len() {
                lemma_same_from_ahead(u, a, v, b, d, p2 - b);
                lemma_moves_union_rest(
                    u,
                    p2 + (a - b),
                    v,
                    p2,
                    end,
                    d,
                    ExprView::Union(Box::new(lhs), Box::new(rhs)),
                );
            }
        }
    }
}

#[verifier::spinoff_prover]
#[verifier::rlimit(40)]
proof fn lemma_moves_path(u: Toks, a: int, v: Toks, b: int, end: int, d: int)
    requires
        same_from(u, a, v, b, d),
    ensures
        p_path(u, a, end + d) == moved(p_path(v, b, end), a - b, d),
    decreases u.len() - a, 19int,
{
    lemma_same_from_ahead(u, a, v, b, d, 0);
    lemma_same_from_tests(u, a, v, b, end, d);
    if starts_location_path(v, b) {
        lemma_moves_location(u, a, v, b, end, d);
    } else {
        lemma_moves_filter(u, a, v, b, end, d);
        if let Ok((f, p1)) = p_filter(v, b, end) {
            if b <= p1 <= v.len() {
                lemma_same_from_ahead(u, a, v, b, d, p1 - b);
                if tok(v, p1) == Some(TokenView::Slash) || tok(v, p1) == Some(
                    TokenView::SlashSlash,
                ) {
                    assert(p1 < v.len());
                    lemma_same_from_ahead(u, a, v, b, d, p1 + 1 - b);
                    lemma_moves_steps(u, p1 + 1 + (a - b), v, p1 + 1, end, d);
                }
            }
        }
    }
}

#[verifier::spinoff_prover]
proof fn lemma_moves_location(u: Toks, a: int, v: Toks, b: int, end: int, d: int)
    requires
        same_from(u, a, v, b, d),
    ensures
        p_location(u, a, end + d) == moved(p_location(v, b, end), a - b, d),
    decreases u.len() - a, 18int,
{
    lemma_same_from_tests(u, a, v, b, end, d);
    if tok(v, b) == Some(TokenView::Slash) || tok(v, b) == Some(TokenView::SlashSlash) {
        lemma_same_from_ahead(u, a, v, b, d, 1);
        lemma_same_from_tests(u, a + 1, v, b + 1, end, d);
        lemma_moves_steps(u, a + 1, v, b + 1, end, d);
    } else {
        lemma_moves_steps(u, a, v, b, end, d);
    }
}

#[verifier::spinoff_prover]
proof fn lemma_moves_filter(u: Toks, a: int, v: Toks, b: int, end: int, d: int)
    requires
        same_from(u, a, v, b, d),
    ensures
        p_filter(u, a, end + d) == moved(p_filter(v, b, end), a - b, d),
    decreases u.len() - a, 17int,
{
    lemma_same_from_ahead(u, a, v, b, d, 0);
    lemma_moves_primary(u, a, v, b, end, d);
    if let Ok((primary, p1)) = p_primary(v, b, end) {
        if b <= p1 <= v.len() {
            lemma_same_from_ahead(u, a, v, b, d, p1 - b);
            lemma_moves_predicates(u, p1 + (a - b), v, p1, end, d, Seq::empty());
        }
    }
}

#[verifier::spinoff_prover]
proof fn lemma_moves_steps(u: Toks, a: int, v: Toks, b: int, end: int, d: int)
    requires
        same_from(u, a, v, b, d),
    ensures
        p_steps(u, a, end + d) == moved(p_steps(v, b, end), a - b, d),
    decreases u.len() - a, 16int,
{
    lemma_same_from_ahead(u, a, v, b, d, 0);
    lemma_moves_step(u, a, v, b, end, d);
    if let Ok((s, p1)) = p_step(v, b, end) {
        if b <= p1 <= v.len() {
            lemma_same_from_ahead(u, a, v, b, d, p1 - b);
            lemma_moves_steps_rest(u, p1 + (a - b), v, p1, end, d, seq![s]);
        }
    }
}

#[verifier::spinoff_prover]
proof fn lemma_moves_steps_rest(u: Toks, a: int, v: Toks, b: int, end: int, d: int, acc: Seq<StepView>)
    requires
        same_from(u, a, v, b, d),
    ensures
        steps_rest(u, a, end + d, acc) == moved(steps_rest(v, b, end, acc), a - b, d),
    decreases u.len() - a, 15int,
{
    lemma_same_from_tests(u, a, v, b, end, d);
    if tok(v, b) == Some(TokenView::Slash) || tok(v, b) == Some(TokenView::SlashSlash) {
        lemma_same_from_ahead(u, a, v, b, d, 1);
        lemma_moves_step(u, a + 1, v, b + 1, end, d);
        if let Ok((s, p2)) = p_step(v, b + 1, end) {
            if b < p2 <= v.len() {
                lemma_same_from_ahead(u, a, v, b, d, p2 - b);
                let next = if tok(v, b) == Some(TokenView::Slash) {
                    acc.push(s)
                } else {
                    acc.push(dos_step()).push(s)
                };
                lemma_moves_steps_rest(u, p2 + (a - b), v, p2, end, d, next);
            }
        }
    }
}

#[verifier::spinoff_prover]
proof fn lemma_moves_step(u: Toks, a: int, v: Toks, b: int, end: int, d: int)
    requires
        same_from(u, a, v, b, d),
    ensures
        p_step(u, a, end + d) == moved(p_step(v, b, end), a - b, d),
    decreases u.len() - a, 14int,
{
    lemma_same_from_tests(u, a, v, b, end, d);
    if tok(v, b) != Some(TokenView::Dot) && tok(v, b) != Some(TokenView::DotDot) {
        let (axis, q) = if tok(v, b) == Some(TokenView::At) {
            (Axis::Attribute, b + 1)
        } else if axis_at(v, b) is Some {
            (axis_at(v, b).unwrap(), b + 2)
        } else {
            (Axis::Child, b)
        };
        if q <= v.len() {
            lemma_same_from_ahead(u, a, v, b, d, q - b);
            lemma_moves_node_test(u, q + (a - b), v, q, end, d);
            if let Ok((node_test, p1)) = p_node_test(v, q, end) {
                if q <= p1 <= v.len() {
                    lemma_same_from_ahead(u, a, v, b, d, p1 - b);
                    lemma_moves_predicates(u, p1 + (a - b), v, p1, end, d, Seq::empty());
                }
            }
        }
    }
}

#[verifier::spinoff_prover]
#[verifier::rlimit(40)]
proof fn lemma_moves_predicates(u: Toks, a: int, v: Toks, b: int, end: int, d: int, acc: Seq<ExprView>)
    requires
        same_from(u, a, v, b, d),
    ensures
        p_predicates(u, a, end + d, acc) == moved(p_predicates(v, b, end, acc), a - b, d),
    decreases u.len() - a, 13int,
{
    lemma_same_from_tests(u, a, v, b, end, d);
    if tok(v, b) == Some(TokenView::LBracket) {
        lemma_same_from_ahead(u, a, v, b, d, 1);
        lemma_moves_expr(u, a + 1, v, b + 1, end, d);
        if let Ok((e, p1)) = p_expr(v, b + 1, end) {
            if b < p1 <= v.len() {
                lemma_same_from_ahead(u, a, v, b, d, p1 - b);
                lemma_same_from_tests(u, p1 + (a - b), v, p1, end, d);
                if let Ok(p2) = expect(v, p1, end, true) {
                    lemma_same_from_ahead(u, a, v, b, d, p2 - b);
                    lemma_moves_predicates(u, p2 + (a - b), v, p2, end, d, acc.push(e));
                }
            }
        }
    }
}

#[verifier::spinoff_prover]
proof fn lemma_moves_node_test(u: Toks, a: int, v: Toks, b: int, end: int, d: int)
    requires
        same_from(u, a, v, b, d),
    ensures
        p_node_test(u, a, end + d) == moved(p_node_test(v, b, end), a - b, d),
    decreases u.len() - a, 12int,
{
    reveal(p_node_test);
    lemma_same_from_tests(u, a, v, b, end, d);
    if a + 1 <= u.len() {
        lemma_same_from_ahead(u, a, v, b, d, 1);
    }
    if a + 2 <= u.len() {
        lemma_same_from_ahead(u, a, v, b, d, 2);
        lemma_same_from_tests(u, a + 2, v, b + 2, end, d);
    }
    if a + 3 <= u.len() {
        lemma_same_from_ahead(u, a, v, b, d, 3);
        lemma_same_from_tests(u, a + 3, v, b + 3, end, d);
    }
}

#[verifier::spinoff_prover]
#[verifier::rlimit(40)]
proof fn lemma_moves_primary(u: Toks, a: int, v: Toks, b: int, end: int, d: int)
    requires
        same_from(u, a, v, b, d),
    ensures
        p_primary(u, a, end + d) == moved(p_primary(v, b, end), a - b, d),
    decreases u.len() - a, 11int,
{
    lemma_same_from_ahead(u, a, v, b, d, 0);
    lemma_same_from_tests(u, a, v, b, end, d);
    if a + 1 <= u.len() {
        lemma_same_from_ahead(u, a, v, b, d, 1);
    }
    if tok(v, b) == Some(TokenView::LParen) {
        lemma_moves_expr(u, a + 1, v, b + 1, end, d);
        match p_expr(v, b + 1, end) {
            Err(e) => {
                assert(p_primary(v, b, end) == Err::<(PrimaryView, int), ErrorView>(e));
                assert(p_primary(u, a, end + d) == Err::<(PrimaryView, int), ErrorView>(
                    error_moved(e, d),
                ));
            },
            Ok((e, p1)) => {
                if b < p1 <= v.len() {
                    lemma_same_from_ahead(u, a, v, b, d, p1 - b);
                    lemma_same_from_tests(u, p1 + (a - b), v, p1, end, d);
                }
            },
        }
    } else if tok(v, b) matches Some(TokenView::Name { .. }) && tok(v, b + 1) == Some(
        TokenView::LParen,
    ) {
        lemma_moves_primary_call(u, a, v, b, end, d);
    }
}

#[verifier::spinoff_prover]
#[verifier::rlimit(40)]
proof fn lemma_moves_primary_call(u: Toks, a: int, v: Toks, b: int, end: int, d: int)
    requires
        same_from(u, a, v, b, d),
        tok(v, b) matches Some(TokenView::Name { .. }),
        tok(v, b + 1) == Some(TokenView::LParen),
    ensures
        p_primary(u, a, end + d) == moved(p_primary(v, b, end), a - b, d),
    decreases u.len() - a, 10int,
{
    lemma_same_from_ahead(u, a, v, b, d, 0);
    lemma_same_from_ahead(u, a, v, b, d, 1);
    lemma_same_from_ahead(u, a, v, b, d, 2);
    lemma_moves_args(u, a + 2, v, b + 2, end, d);
    match p_args(v, b + 2, end) {
        Err(e) => {
            assert(p_primary(v, b, end) == Err::<(PrimaryView, int), ErrorView>(e));
            assert(p_primary(u, a, end + d) == Err::<(PrimaryView, int), ErrorView>(
                error_moved(e, d),
            ));
        },
        Ok((args, p1)) => {
            assert(p_args(u, a + 2, end + d) == Ok::<(Seq<ExprView>, int), ErrorView>(
                (args, p1 + (a - b)),
            ));
            if b + 2 <= p1 <= v.len() {
                lemma_same_from_ahead(u, a, v, b, d, p1 - b);
                lemma_same_from_tests(u, p1 + (a - b), v, p1, end, d);
                if let Some(TokenView::Name { prefix, local }) = tok(v, b) {
                    let f = PrimaryView::Function(QNameView { prefix, local }, args);
                    match expect(v, p1, end, false) {
                        Err(err) => {
                            assert(p_primary(v, b, end) == Err::<(PrimaryView, int), ErrorView>(
                                err,
                            ));
                        },
                        Ok(p2) => {
                            assert(p_primary(v, b, end) == Ok::<(PrimaryView, int), ErrorView>(
                                (f, p2),
                            ));
                        },
                    }
                }
            }
        },
    }
}

#[verifier::spinoff_prover]
#[verifier::rlimit(40)]
proof fn lemma_moves_args(u: Toks, a: int, v: Toks, b: int, end: int, d: int)
    requires
        same_from(u, a, v, b, d),
    ensures
        p_args(u, a, end + d) == moved(p_args(v, b, end), a - b, d),
    decreases u.len() - a, 40int,
{
    lemma_same_from_ahead(u, a, v, b, d, 0);
    lemma_same_from_tests(u, a, v, b, end, d);
    if tok(v, b) != Some(TokenView::RParen) {
        lemma_moves_expr(u, a, v, b, end, d);
        if let Ok((e, p1)) = p_expr(v, b, end) {
            if b <= p1 <= v.len() {
                lemma_same_from_ahead(u, a, v, b, d, p1 - b);
                lemma_moves_args_rest(u, p1 + (a - b), v, p1, end, d, seq![e]);
            }
        }
    }
}

#[verifier::spinoff_prover]
proof fn lemma_moves_args_rest(u: Toks, a: int, v: Toks, b: int, end: int, d: int, acc: Seq<ExprView>)
    requires
        same_from(u, a, v, b, d),
    ensures
        args_rest(u, a, end + d, acc) == moved(args_rest(v, b, end, acc), a - b, d),
    decreases u.len() - a, 39int,
{
    lemma_same_from_tests(u, a, v, b, end, d);
    if tok(v, b) == Some(TokenView::Comma) {
        lemma_same_from_ahead(u, a, v, b, d, 1);
        lemma_moves_expr(u, a + 1, v, b + 1, end, d);
        if let Ok((e, p2)) = p_expr(v, b + 1, end) {
            if b < p2 <= v.len() {
                lemma_same_from_ahead(u, a, v, b, d, p2 - b);
                lemma_moves_args_rest(u, p2 + (a - b), v, p2, end, d, acc.push(e));
            }
        }
    }
}


/// An expression read at `a` depends only on the tokens from `a` on: where
/// those are the tokens of `v` from `b` on, it is the expression read there,
/// ending at the same token.
#[verifier::spinoff_prover]
pub proof fn law_expression_reads_only_ahead(u: Toks, a: int, v: Toks, b: int, end: int, d: int)
    requires
        same_from(u, a, v, b, d),
    ensures
        p_expr(u, a, end + d) == moved(p_expr(v, b, end), a - b, d),
{
    lemma_moves_expr(u, a, v, b, end, d);
}

// ---- The abbreviations --------------------------------------------------

/// Whether the token at `p` is the name `n` of the axis `axis`, without a
/// prefix, followed by `::`.
pub open spec fn axis_spelled(t: Toks, p: int, axis: Axis) -> bool {
    &&& tok(t, p) matches Some(TokenView::Name { prefix: None, local }) && axis_named(local)
        == Some(axis)
    &&& tok(t, p + 1) == Some(TokenView::ColonColon)
}

/// Whether the tokens from `p` on spell the node type test `node()`.
pub open spec fn node_call_at(t: Toks, p: int) -> bool {
    &&& tok(t, p) == Some(TokenView::Name { prefix: None, local: "node"@ })
    &&& tok(t, p + 1) == Some(TokenView::LParen)
    &&& tok(t, p + 2) == Some(TokenView::RParen)
}

/// `@`, given the same tokens after it, reads as the same step as
/// `attribute::`.
#[verifier::spinoff_prover]
pub proof fn law_attribute_abbreviation(u: Toks, a: int, v: Toks, b: int, end: int, d: int)
    requires
        tok(u, a) == Some(TokenView::At),
        axis_spelled(v, b, Axis::Attribute),
        same_from(u, a + 1, v, b + 2, d),
    ensures
        p_step(u, a, end + d) == moved(p_step(v, b, end), a - b - 1, d),
{
    lemma_same_from_ahead(u, a + 1, v, b + 2, d, 0);
    lemma_moves_node_test(u, a + 1, v, b + 2, end, d);
    if let Ok((node_test, p1)) = p_node_test(v, b + 2, end) {
        if b + 2 <= p1 <= v.len() {
            lemma_same_from_ahead(u, a + 1, v, b + 2, d, p1 - (b + 2));
            lemma_moves_predicates(u, p1 + (a - b - 1), v, p1, end, d, Seq::empty());
        }
    }
}

/// A step with no axis, given the same tokens from its node test on, reads
/// as the same step as one that starts with `child::`.
#[verifier::spinoff_prover]
pub proof fn law_child_abbreviation(u: Toks, a: int, v: Toks, b: int, end: int, d: int)
    requires
        tok(u, a) != Some(TokenView::At),
        tok(u, a) != Some(TokenView::Dot),
        tok(u, a) != Some(TokenView::DotDot),
        axis_at(u, a) is None,
        axis_spelled(v, b, Axis::Child),
        same_from(u, a, v, b + 2, d),
    ensures
        p_step(u, a, end + d) == moved(p_step(v, b, end), a - b - 2, d),
{
    lemma_same_from_ahead(u, a, v, b + 2, d, 0);
    lemma_moves_node_test(u, a, v, b + 2, end, d);
    if let Ok((node_test, p1)) = p_node_test(v, b + 2, end) {
        if b + 2 <= p1 <= v.len() {
            lemma_same_from_ahead(u, a, v, b + 2, d, p1 - (b + 2));
            lemma_moves_predicates(u, p1 + (a - b - 2), v, p1, end, d, Seq::empty());
        }
    }
}

/// `self::node()` with no predicate after it, as a step.
#[verifier::spinoff_prover]
proof fn lemma_spelled_node_step(v: Toks, b: int, end: int, axis: Axis)
    requires
        axis_spelled(v, b, axis),
        node_call_at(v, b + 2),
        tok(v, b + 5) != Some(TokenView::LBracket),
        axis != Axis::Attribute,
    ensures
        p_step(v, b, end) == Ok::<(StepView, int), ErrorView>(
            (StepView { axis, node_test: NodeTestView::Node, predicates: Seq::empty() }, b + 5),
        ),
{
    reveal(p_node_test);
    reveal_strlit("node");
    reveal_strlit("processing-instruction");
    assert(is_node_type("node"@));
    assert("node"@ != "processing-instruction"@) by {
        assert("node"@.len() != "processing-instruction"@.len());
    }
    assert(expect(v, b + 4, end, false) == Ok::<int, ErrorView>(b + 5));
    assert(p_node_test(v, b + 2, end) == Ok::<(NodeTestView, int), ErrorView>(
        (NodeTestView::Node, b + 5),
    ));
}

/// `.` reads as the same step as `self::node()` where no predicate follows.
#[verifier::spinoff_prover]
pub proof fn law_self_abbreviation(u: Toks, a: int, v: Toks, b: int, end: int, d: int)
    requires
        tok(u, a) == Some(TokenView::Dot),
        axis_spelled(v, b, Axis::SelfAxis),
        node_call_at(v, b + 2),
        tok(v, b + 5) != Some(TokenView::LBracket),
    ensures
        p_step(u, a, end + d) == moved(p_step(v, b, end), a - b - 4, d),
{
    lemma_spelled_node_step(v, b, end, Axis::SelfAxis);
}

/// `..` reads as the same step as `parent::node()` where no predicate
/// follows.
#[verifier::spinoff_prover]
pub proof fn law_parent_abbreviation(u: Toks, a: int, v: Toks, b: int, end: int, d: int)
    requires
        tok(u, a) == Some(TokenView::DotDot),
        axis_spelled(v, b, Axis::Parent),
        node_call_at(v, b + 2),
        tok(v, b + 5) != Some(TokenView::LBracket),
    ensures
        p_step(u, a, end + d) == moved(p_step(v, b, end), a - b - 4, d),
{
    lemma_spelled_node_step(v, b, end, Axis::Parent);
}

/// Whether the tokens from `p` on spell `/descendant-or-self::node()/`.
pub open spec fn dos_spelled(t: Toks, p: int) -> bool {
    &&& tok(t, p) == Some(TokenView::Slash)
    &&& axis_spelled(t, p + 1, Axis::DescendantOrSelf)
    &&& node_call_at(t, p + 3)
    &&& tok(t, p + 6) == Some(TokenView::Slash)
}

/// `//` between two steps, given the same tokens after it, reads as
/// `/descendant-or-self::node()/`: the steps gathered so far, `acc`, go on
/// the same way.
#[verifier::spinoff_prover]
#[verifier::rlimit(40)]
pub proof fn law_descendant_abbreviation_between_steps(
    u: Toks,
    a: int,
    v: Toks,
    b: int,
    end: int,
    d: int,
    acc: Seq<StepView>,
)
    requires
        tok(u, a) == Some(TokenView::SlashSlash),
        dos_spelled(v, b),
        same_from(u, a + 1, v, b + 7, d),
    ensures
        steps_rest(u, a, end + d, acc) == moved(steps_rest(v, b, end, acc), a - b - 6, d),
{
    lemma_spelled_node_step(v, b + 1, end, Axis::DescendantOrSelf);
    assert(steps_rest(v, b, end, acc) == steps_rest(v, b + 6, end, acc.push(dos_step())));
    lemma_same_from_ahead(u, a + 1, v, b + 7, d, 0);
    lemma_moves_step(u, a + 1, v, b + 7, end, d);
    if let Ok((s, p2)) = p_step(v, b + 7, end) {
        if b + 7 <= p2 <= v.len() {
            lemma_same_from_ahead(u, a + 1, v, b + 7, d, p2 - (b + 7));
            lemma_moves_steps_rest(
                u,
                p2 + (a - b - 6),
                v,
                p2,
                end,
                d,
                acc.push(dos_step()).push(s),
            );
        }
    }
}

/// The steps read after `pre`, at `p`, are those read after nothing, with
/// `pre` before them.
#[verifier::spinoff_prover]
proof fn lemma_steps_rest_after(t: Toks, p: int, end: int, pre: Seq<StepView>, acc: Seq<StepView>)
    ensures
        steps_rest(t, p, end, pre + acc) == match steps_rest(t, p, end, acc) {
            Ok((steps, q)) => Ok((pre + steps, q)),
            Err(e) => Err::<(Seq<StepView>, int), ErrorView>(e),
        },
    decreases t.len() - p,
{
    if tok(t, p) == Some(TokenView::Slash) || tok(t, p) == Some(TokenView::SlashSlash) {
        if let Ok((s, p2)) = p_step(t, p + 1, end) {
            if p < p2 <= t.len() {
                if tok(t, p) == Some(TokenView::Slash) {
                    assert((pre + acc).push(s) =~= pre + acc.push(s));
                    lemma_steps_rest_after(t, p2, end, pre, acc.push(s));
                } else {
                    assert((pre + acc).push(dos_step()).push(s) =~= pre + acc.push(dos_step()).push(s));
                    lemma_steps_rest_after(t, p2, end, pre, acc.push(dos_step()).push(s));
                }
            }
        }
    }
}

/// `//` at the start of a location path, given the same tokens after it,
/// reads as the same path as `/descendant-or-self::node()/`.
#[verifier::spinoff_prover]
#[verifier::rlimit(40)]
pub proof fn law_descendant_abbreviation_at_start(u: Toks, a: int, v: Toks, b: int, end: int, d: int)
    requires
        tok(u, a) == Some(TokenView::SlashSlash),
        dos_spelled(v, b),
        same_from(u, a + 1, v, b + 7, d),
    ensures
        p_location(u, a, end + d) == moved(p_location(v, b, end), a - b - 6, d),
{
    lemma_spelled_node_step(v, b + 1, end, Axis::DescendantOrSelf);
    assert(can_start_step(v, b + 1));
    lemma_same_from_ahead(u, a + 1, v, b + 7, d, 0);
    lemma_moves_step(u, a + 1, v, b + 7, end, d);
    if let Ok((s, p2)) = p_step(v, b + 7, end) {
        if b + 7 <= p2 <= v.len() {
            lemma_same_from_ahead(u, a + 1, v, b + 7, d, p2 - (b + 7));
            lemma_moves_steps_rest(u, p2 + (a - b - 6), v, p2, end, d, seq![dos_step(), s]);
            lemma_steps_rest_after(u, p2 + (a - b - 6), end + d, seq![dos_step()], seq![s]);
            assert(seq![dos_step()] + seq![s] =~= seq![dos_step(), s]);
            assert(seq![dos_step()].push(s) =~= seq![dos_step(), s]);
        }
    }
}


/// `//` after a filter expression, given the filter expression read the
/// same way before it and the same tokens after it, reads as the same path
/// as `/descendant-or-self::node()/`.
#[verifier::spinoff_prover]
#[verifier::rlimit(40)]
pub proof fn law_descendant_abbreviation_after_filter(
    u: Toks,
    a: int,
    v: Toks,
    b: int,
    end: int,
    d: int,
    f: FilterView,
    p1: int,
    q1: int,
)
    requires
        !starts_location_path(u, a),
        !starts_location_path(v, b),
        p_filter(u, a, end + d) == Ok::<(FilterView, int), ErrorView>((f, p1)),
        p_filter(v, b, end) == Ok::<(FilterView, int), ErrorView>((f, q1)),
        a <= p1,
        b <= q1,
        tok(u, p1) == Some(TokenView::SlashSlash),
        dos_spelled(v, q1),
        same_from(u, p1 + 1, v, q1 + 7, d),
    ensures
        p_path(u, a, end + d) == moved(p_path(v, b, end), p1 - q1 - 6, d),
{
    lemma_spelled_node_step(v, q1 + 1, end, Axis::DescendantOrSelf);
    assert(p_steps(v, q1 + 1, end) == steps_rest(v, q1 + 6, end, seq![dos_step()]));
    lemma_same_from_ahead(u, p1 + 1, v, q1 + 7, d, 0);
    lemma_moves_step(u, p1 + 1, v, q1 + 7, end, d);
    if let Ok((s, p2)) = p_step(v, q1 + 7, end) {
        if q1 + 7 <= p2 <= v.len() {
            lemma_same_from_ahead(u, p1 + 1, v, q1 + 7, d, p2 - (q1 + 7));
            lemma_moves_steps_rest(u, p2 + (p1 - q1 - 6), v, p2, end, d, seq![dos_step(), s]);
            lemma_steps_rest_after(u, p2 + (p1 - q1 - 6), end + d, seq![dos_step()], seq![s]);
            assert(seq![dos_step()] + seq![s] =~= seq![dos_step(), s]);
            assert(seq![dos_step()].push(s) =~= seq![dos_step(), s]);
        }
    }
}


// ---- Whole expressions ---------------------------------------------------

/// A path that is the whole of the tokens `t` is the whole expression.
#[verifier::spinoff_prover]
proof fn lemma_binary_whole(t: Toks, end: int, level: nat, e: ExprView)
    requires
        p_unary(t, 0, end) == Ok::<(ExprView, int), ErrorView>((e, t.len() as int)),
    ensures
        p_binary(t, 0, end, level) == Ok::<(ExprView, int), ErrorView>((e, t.len() as int)),
    decreases level,
{
    if level > 1 {
        lemma_binary_whole(t, end, (level - 1) as nat, e);
    }
    assert(tok(t, t.len() as int) is None);
    assert(binary_rest(t, t.len() as int, end, level, e) == Ok::<(ExprView, int), ErrorView>(
        (e, t.len() as int),
    ));
}

/// A path read from the first token to the last is the expression the
/// tokens form.
#[verifier::spinoff_prover]
proof fn lemma_path_is_expr(t: Toks, end: int, e: ExprView)
    requires
        p_path(t, 0, end) == Ok::<(ExprView, int), ErrorView>((e, t.len() as int)),
        tok(t, 0) != Some(TokenView::Minus),
    ensures
        p_expr(t, 0, end) == Ok::<(ExprView, int), ErrorView>((e, t.len() as int)),
{
    assert(tok(t, t.len() as int) is None);
    assert(union_rest(t, t.len() as int, end, e) == Ok::<(ExprView, int), ErrorView>(
        (e, t.len() as int),
    ));
    assert(p_union(t, 0, end) == Ok::<(ExprView, int), ErrorView>((e, t.len() as int)));
    assert(p_unary(t, 0, end) == Ok::<(ExprView, int), ErrorView>((e, t.len() as int)));
    lemma_binary_whole(t, end, 6, e);
}

/// The relative path of the one step `s`.
pub open spec fn one_step_path(s: StepView) -> ExprView {
    ExprView::Path(PathView::Location(LocationPathView { is_absolute: false, steps: seq![s] }))
}

/// Tokens that are one relative step from first to last form the path of
/// that step.
#[verifier::spinoff_prover]
proof fn lemma_one_step_expr(t: Toks, end: int, s: StepView)
    requires
        p_step(t, 0, end) == Ok::<(StepView, int), ErrorView>((s, t.len() as int)),
        starts_location_path(t, 0),
        tok(t, 0) != Some(TokenView::Slash),
        tok(t, 0) != Some(TokenView::SlashSlash),
        tok(t, 0) != Some(TokenView::Minus),
    ensures
        p_expr(t, 0, end) == Ok::<(ExprView, int), ErrorView>((one_step_path(s), t.len() as int)),
{
    assert(tok(t, t.len() as int) is None);
    assert(steps_rest(t, t.len() as int, end, seq![s]) == Ok::<(Seq<StepView>, int), ErrorView>(
        (seq![s], t.len() as int),
    ));
    assert(p_steps(t, 0, end) == Ok::<(Seq<StepView>, int), ErrorView>((seq![s], t.len() as int)));
    lemma_path_is_expr(t, end, one_step_path(s));
}

/// The step `axis::prefix:local` with no predicate.
pub open spec fn name_step(axis: Axis, prefix: Option<Seq<char>>, local: Seq<char>) -> StepView {
    StepView {
        axis,
        node_test: NodeTestView::QName(QNameView { prefix, local }),
        predicates: Seq::empty(),
    }
}

/// A name at `q` with nothing after it is a name test, ending the step.
#[verifier::spinoff_prover]
proof fn lemma_last_name_test(t: Toks, q: int, end: int, prefix: Option<Seq<char>>, local: Seq<char>)
    requires
        0 <= q,
        q + 1 == t.len(),
        t[q].0 == (TokenView::Name { prefix, local }),
    ensures
        p_node_test(t, q, end) == Ok::<(NodeTestView, int), ErrorView>(
            (NodeTestView::QName(QNameView { prefix, local }), q + 1),
        ),
        p_predicates(t, q + 1, end, Seq::empty()) == Ok::<(Seq<ExprView>, int), ErrorView>(
            (Seq::empty(), q + 1),
        ),
{
    reveal(p_node_test);
    assert(tok(t, q + 1) is None);
}

/// The axis names that the laws below spell out.
#[verifier::spinoff_prover]
proof fn lemma_axis_names()
    ensures
        axis_named("attribute"@) == Some(Axis::Attribute),
        axis_named("child"@) == Some(Axis::Child),
        axis_named("self"@) == Some(Axis::SelfAxis),
        axis_named("parent"@) == Some(Axis::Parent),
        axis_named("descendant-or-self"@) == Some(Axis::DescendantOrSelf),
{
    reveal_strlit("ancestor");
    reveal_strlit("ancestor-or-self");
    reveal_strlit("attribute");
    reveal_strlit("child");
    reveal_strlit("descendant");
    reveal_strlit("descendant-or-self");
    reveal_strlit("following");
    reveal_strlit("following-sibling");
    reveal_strlit("namespace");
    reveal_strlit("parent");
    reveal_strlit("preceding");
    reveal_strlit("preceding-sibling");
    reveal_strlit("self");
    assert("attribute"@[1] != "ancestor"@[1]);
    assert("attribute"@[1] != "ancestor-or-self"@[1]);
    assert("child"@[0] != "ancestor"@[0]);
    assert("child"@[0] != "ancestor-or-self"@[0]);
    assert("child"@[0] != "attribute"@[0]);
    assert("self"@[0] != "ancestor"@[0]);
    assert("self"@[0] != "ancestor-or-self"@[0]);
    assert("self"@[0] != "attribute"@[0]);
    assert("self"@[0] != "child"@[0]);
    assert("self"@[0] != "descendant"@[0]);
    assert("self"@[0] != "descendant-or-self"@[0]);
    assert("self"@[0] != "following"@[0]);
    assert("self"@[0] != "following-sibling"@[0]);
    assert("self"@[0] != "namespace"@[0]);
    assert("self"@[0] != "parent"@[0]);
    assert("self"@[0] != "preceding"@[0]);
    assert("self"@[0] != "preceding-sibling"@[0]);
    assert("parent"@[0] != "ancestor"@[0]);
    assert("parent"@[0] != "ancestor-or-self"@[0]);
    assert("parent"@[0] != "attribute"@[0]);
    assert("parent"@[0] != "child"@[0]);
    assert("parent"@[0] != "descendant"@[0]);
    assert("parent"@[0] != "descendant-or-self"@[0]);
    assert("parent"@[0] != "following"@[0]);
    assert("parent"@[0] != "following-sibling"@[0]);
    assert("parent"@[0] != "namespace"@[0]);
    assert("descendant-or-self"@[0] != "ancestor"@[0]);
    assert("descendant-or-self"@[0] != "ancestor-or-self"@[0]);
    assert("descendant-or-self"@[0] != "attribute"@[0]);
    assert("descendant-or-self"@[0] != "child"@[0]);
    assert("descendant-or-self"@.len() != "descendant"@.len());
}


/// `@q` and `attribute::q` as tokens: the same one-step path.
#[verifier::spinoff_prover]
proof fn lemma_attribute_tokens(
    u: Toks,
    v: Toks,
    end: int,
    prefix: Option<Seq<char>>,
    local: Seq<char>,
)
    requires
        u.len() == 2,
        u[0].0 == TokenView::At,
        u[1].0 == (TokenView::Name { prefix, local }),
        v.len() == 3,
        v[0].0 == (TokenView::Name { prefix: None, local: "attribute"@ }),
        v[1].0 == TokenView::ColonColon,
        v[2].0 == (TokenView::Name { prefix, local }),
    ensures
        p_expr(u, 0, end) == Ok::<(ExprView, int), ErrorView>(
            (one_step_path(name_step(Axis::Attribute, prefix, local)), 2),
        ),
        p_expr(v, 0, end) == Ok::<(ExprView, int), ErrorView>(
            (one_step_path(name_step(Axis::Attribute, prefix, local)), 3),
        ),
{
    lemma_axis_names();
    lemma_last_name_test(u, 1, end, prefix, local);
    lemma_last_name_test(v, 2, end, prefix, local);
    let s = name_step(Axis::Attribute, prefix, local);
    assert(p_step(u, 0, end) == Ok::<(StepView, int), ErrorView>((s, 2)));
    assert(axis_at(v, 0) == Some(Axis::Attribute));
    assert(p_step(v, 0, end) == Ok::<(StepView, int), ErrorView>((s, 3)));
    lemma_one_step_expr(u, end, s);
    lemma_one_step_expr(v, end, s);
}

/// `q` and `child::q` as tokens: the same one-step path.
#[verifier::spinoff_prover]
proof fn lemma_child_tokens(u: Toks, v: Toks, end: int, prefix: Option<Seq<char>>, local: Seq<char>)
    requires
        u.len() == 1,
        u[0].0 == (TokenView::Name { prefix, local }),
        v.len() == 3,
        v[0].0 == (TokenView::Name { prefix: None, local: "child"@ }),
        v[1].0 == TokenView::ColonColon,
        v[2].0 == (TokenView::Name { prefix, local }),
    ensures
        p_expr(u, 0, end) == Ok::<(ExprView, int), ErrorView>(
            (one_step_path(name_step(Axis::Child, prefix, local)), 1),
        ),
        p_expr(v, 0, end) == Ok::<(ExprView, int), ErrorView>(
            (one_step_path(name_step(Axis::Child, prefix, local)), 3),
        ),
{
    lemma_axis_names();
    lemma_last_name_test(u, 0, end, prefix, local);
    lemma_last_name_test(v, 2, end, prefix, local);
    let s = name_step(Axis::Child, prefix, local);
    assert(axis_at(u, 0) is None);
    assert(p_step(u, 0, end) == Ok::<(StepView, int), ErrorView>((s, 1)));
    assert(axis_at(v, 0) == Some(Axis::Child));
    assert(p_step(v, 0, end) == Ok::<(StepView, int), ErrorView>((s, 3)));
    lemma_one_step_expr(u, end, s);
    lemma_one_step_expr(v, end, s);
}

/// The step `axis::node()`.
pub open spec fn node_step(axis: Axis) -> StepView {
    StepView { axis, node_test: NodeTestView::Node, predicates: Seq::empty() }
}

/// `.` (or `..`) and `self::node()` (or `parent::node()`) as tokens: the
/// same one-step path.
#[verifier::spinoff_prover]
proof fn lemma_node_step_tokens(u: Toks, v: Toks, end: int, axis: Axis, w: Seq<char>)
    requires
        u.len() == 1,
        (axis == Axis::SelfAxis && u[0].0 == TokenView::Dot && w == "self"@) || (axis == Axis::Parent
            && u[0].0 == TokenView::DotDot && w == "parent"@),
        v.len() == 5,
        v[0].0 == (TokenView::Name { prefix: None, local: w }),
        v[1].0 == TokenView::ColonColon,
        v[2].0 == (TokenView::Name { prefix: None, local: "node"@ }),
        v[3].0 == TokenView::LParen,
        v[4].0 == TokenView::RParen,
    ensures
        p_expr(u, 0, end) == Ok::<(ExprView, int), ErrorView>((one_step_path(node_step(axis)), 1)),
        p_expr(v, 0, end) == Ok::<(ExprView, int), ErrorView>((one_step_path(node_step(axis)), 5)),
{
    lemma_axis_names();
    assert(axis_spelled(v, 0, axis));
    assert(node_call_at(v, 2));
    assert(tok(v, 5) is None);
    lemma_spelled_node_step(v, 0, end, axis);
    assert(p_step(u, 0, end) == Ok::<(StepView, int), ErrorView>((node_step(axis), 1)));
    lemma_one_step_expr(u, end, node_step(axis));
    lemma_one_step_expr(v, end, node_step(axis));
}

// ---- Whole expressions, from their text --------------------------------

/// An `NCName`: a name start, then name characters (no ':').
pub open spec fn ncname(n: Seq<char>) -> bool {
    &&& n.len() > 0
    &&& name_start(n[0])
    &&& forall|k: int| 0 < k < n.len() ==> #[trigger] name_char(n[k])
}

/// A `QName` with the given parts.
pub open spec fn qname_ok(prefix: Option<Seq<char>>, local: Seq<char>) -> bool {
    ncname(local) && (prefix matches Some(p) ==> ncname(p))
}

/// The text of a `QName`: `prefix:local`, or `local`.
pub open spec fn qname_text(prefix: Option<Seq<char>>, local: Seq<char>) -> Seq<char> {
    match prefix {
        Some(p) => p + seq![':'] + local,
        None => local,
    }
}

#[verifier::spinoff_prover]
proof fn lemma_name_chars_end(cs: Seq<char>, k: int, e: int)
    requires
        0 <= k <= e <= cs.len(),
        forall|m: int| k <= m < e ==> #[trigger] name_char(cs[m]),
        e == cs.len() || !name_char(cs[e]),
    ensures
        name_chars_end(cs, k) == e,
    decreases e - k,
{
    if k < e {
        lemma_name_chars_end(cs, k + 1, e);
    }
}

/// A name start begins a name token.
#[verifier::spinoff_prover]
proof fn lemma_scan_name_start(cs: Seq<char>, i: int, operand: bool)
    requires
        0 <= i < cs.len(),
        name_start(cs[i]),
    ensures
        scan(cs, i, operand) == Ok::<(TokenView, int), ErrorView>(scan_name(cs, i, operand)),
        !is_xml_ws(cs[i]),
{
    let c = cs[i];
    assert(single_char_token(c) is None);
    assert(!is_digit(c));
}

/// A word from `i` to `e` not followed by a single ':' is one name token.
#[verifier::spinoff_prover]
proof fn lemma_scan_word(cs: Seq<char>, i: int, e: int, operand: bool)
    requires
        0 <= i < e <= cs.len(),
        name_start(cs[i]),
        forall|m: int| i < m < e ==> #[trigger] name_char(cs[m]),
        e == cs.len() || !name_char(cs[e]),
        e == cs.len() || cs[e] != ':' || (e + 1 < cs.len() && cs[e + 1] == ':'),
    ensures
        scan(cs, i, operand) == Ok::<(TokenView, int), ErrorView>(
            (name_or_operator(cs.subrange(i, e), operand), e),
        ),
        !is_xml_ws(cs[i]),
{
    lemma_name_chars_end(cs, i + 1, e);
    lemma_scan_name_start(cs, i, operand);
}

/// Nothing is left to read at the end.
#[verifier::spinoff_prover]
proof fn lemma_lex_at_end(cs: Seq<char>, prev: Option<TokenView>)
    ensures
        lex_from(cs, cs.len() as int, prev) == Ok::<Seq<(TokenView, int)>, ErrorView>(Seq::empty()),
{
    assert(ws_end(cs, cs.len() as int) == cs.len());
}

/// A `QName` that is the rest of the text, where an operand is due, is one
/// name token.
#[verifier::spinoff_prover]
#[verifier::rlimit(40)]
proof fn lemma_lex_qname_rest(
    cs: Seq<char>,
    i: int,
    prev: Option<TokenView>,
    prefix: Option<Seq<char>>,
    local: Seq<char>,
)
    requires
        0 <= i <= cs.len(),
        operand_follows(prev),
        cs.skip(i) == qname_text(prefix, local),
        qname_ok(prefix, local),
    ensures
        lex_from(cs, i, prev) == Ok::<Seq<(TokenView, int)>, ErrorView>(
            seq![(TokenView::Name { prefix, local }, byte_pos(cs, i))],
        ),
{
    let x = qname_text(prefix, local);
    let len = cs.len() as int;
    assert(cs.skip(i).len() == x.len());
    assert forall|k: int| 0 <= k < x.len() implies cs[i + k] == #[trigger] x[k] by {
        assert(cs.skip(i)[k] == cs[i + k]);
    }
    let t = TokenView::Name { prefix, local };
    match prefix {
        None => {
            assert(cs[i] == x[0]);
            assert forall|m: int| i < m < len implies #[trigger] name_char(cs[m]) by {
                assert(cs[i + (m - i)] == x[m - i]);
            }
            lemma_scan_word(cs, i, len, true);
            assert(cs.subrange(i, len) =~= local);
        },
        Some(p) => {
            let e1 = i + p.len();
            assert(cs[i] == x[0]);
            assert(cs[e1] == x[p.len() as int]);
            assert(cs[e1 + 1] == x[p.len() + 1int]);
            assert(x[p.len() + 1int] == local[0]);
            assert forall|m: int| i < m < e1 implies #[trigger] name_char(cs[m]) by {
                assert(cs[i + (m - i)] == x[m - i]);
                assert(x[m - i] == p[m - i]);
            }
            lemma_name_chars_end(cs, i + 1, e1);
            assert forall|m: int| e1 + 1 < m < len implies #[trigger] name_char(cs[m]) by {
                assert(cs[i + (m - i)] == x[m - i]);
                assert(x[m - i] == local[m - e1 - 1]);
            }
            lemma_name_chars_end(cs, e1 + 2, len);
            lemma_scan_name_start(cs, i, true);
            assert(cs.subrange(i, e1) =~= p);
            assert forall|k: int| 0 <= k < local.len() implies #[trigger] cs.subrange(
                e1 + 1,
                len,
            )[k] == local[k] by {
                assert(cs[i + (p.len() + 1 + k)] == x[p.len() + 1 + k]);
            }
            assert(cs.subrange(e1 + 1, len) =~= local);
        },
    }
    assert(scan(cs, i, operand_follows(prev)) == Ok::<(TokenView, int), ErrorView>((t, len)));
    assert(ws_end(cs, i) == i);
    lemma_lex_at_end(cs, Some(t));
    assert(seq![(t, byte_pos(cs, i))] + Seq::<(TokenView, int)>::empty() =~= seq![(t, byte_pos(cs, i))]);
}


/// The ASCII letters of the axis names, and `node`, are name characters.
#[verifier::spinoff_prover]
proof fn lemma_ascii_word(w: Seq<char>)
    requires
        w.len() > 0,
        forall|k: int| 0 <= k < w.len() ==> ('a' <= #[trigger] w[k] && w[k] <= 'z') || w[k] == '-',
        'a' <= w[0] && w[0] <= 'z',
    ensures
        ncname(w),
{
    assert forall|k: int| 0 < k < w.len() implies #[trigger] name_char(w[k]) by {
        assert(('a' <= w[k] && w[k] <= 'z') || w[k] == '-');
    }
}

/// `w::` followed by a `QName`: three tokens.
#[verifier::spinoff_prover]
#[verifier::rlimit(40)]
proof fn lemma_lex_axis_qname(
    cs: Seq<char>,
    w: Seq<char>,
    prefix: Option<Seq<char>>,
    local: Seq<char>,
)
    requires
        ncname(w),
        cs.len() >= w.len() + 2,
        cs.take(w.len() as int) == w,
        cs[w.len() as int] == ':',
        cs[w.len() as int + 1] == ':',
        cs.skip(w.len() as int + 2) == qname_text(prefix, local),
        qname_ok(prefix, local),
    ensures
        lex(cs) == Ok::<Seq<(TokenView, int)>, ErrorView>(
            seq![
                (TokenView::Name { prefix: None, local: w }, byte_pos(cs, 0)),
                (TokenView::ColonColon, byte_pos(cs, w.len() as int)),
                (TokenView::Name { prefix, local }, byte_pos(cs, w.len() as int + 2)),
            ],
        ),
{
    let wl = w.len() as int;
    assert forall|m: int| 0 <= m < wl implies cs[m] == #[trigger] w[m] by {
        assert(cs.take(wl)[m] == cs[m]);
    }
    assert forall|m: int| 0 < m < wl implies #[trigger] name_char(cs[m]) by {
        assert(name_char(w[m]));
    }
    lemma_scan_word(cs, 0, wl, true);
    assert(cs.subrange(0, wl) =~= w);
    let t0 = TokenView::Name { prefix: None, local: w };
    assert(name_or_operator(w, true) == t0);
    lemma_lex_qname_rest(cs, wl + 2, Some(TokenView::ColonColon), prefix, local);
    assert(ws_end(cs, wl) == wl);
    assert(single_char_token(':') is None);
    assert(scan(cs, wl, false) == Ok::<(TokenView, int), ErrorView>((TokenView::ColonColon, wl + 2)));
    let rest = seq![(TokenView::Name { prefix, local }, byte_pos(cs, wl + 2))];
    assert(lex_from(cs, wl, Some(t0)) == Ok::<Seq<(TokenView, int)>, ErrorView>(
        seq![(TokenView::ColonColon, byte_pos(cs, wl))] + rest,
    ));
    assert(ws_end(cs, 0) == 0);
    assert(lex(cs) == Ok::<Seq<(TokenView, int)>, ErrorView>(
        seq![(t0, byte_pos(cs, 0))] + (seq![(TokenView::ColonColon, byte_pos(cs, wl))] + rest),
    ));
    assert(seq![(t0, byte_pos(cs, 0))] + (seq![(TokenView::ColonColon, byte_pos(cs, wl))] + rest)
        =~= seq![
        (t0, byte_pos(cs, 0)),
        (TokenView::ColonColon, byte_pos(cs, wl)),
        (TokenView::Name { prefix, local }, byte_pos(cs, wl + 2)),
    ]);
}

/// A bare `QName` is one token.
#[verifier::spinoff_prover]
proof fn lemma_lex_qname(prefix: Option<Seq<char>>, local: Seq<char>)
    requires
        qname_ok(prefix, local),
    ensures
        lex(qname_text(prefix, local)) == Ok::<Seq<(TokenView, int)>, ErrorView>(
            seq![(TokenView::Name { prefix, local }, byte_pos(qname_text(prefix, local), 0))],
        ),
{
    let x = qname_text(prefix, local);
    assert(x.skip(0) =~= x);
    lemma_lex_qname_rest(x, 0, None, prefix, local);
}

/// The step `q` reads as the step `child::q`: `q` and `child::q` parse to
/// the same expression, whatever `QName` `q` is.
#[verifier::spinoff_prover]
#[verifier::rlimit(40)]
pub proof fn law_child_abbreviation_in_text(
    prefix: Option<Seq<char>>,
    local: Seq<char>,
    end1: int,
    end2: int,
)
    requires
        qname_ok(prefix, local),
    ensures
        parse_spec(qname_text(prefix, local), end1) == Ok::<ExprView, ErrorView>(
            one_step_path(name_step(Axis::Child, prefix, local)),
        ),
        parse_spec("child::"@ + qname_text(prefix, local), end2) == parse_spec(
            qname_text(prefix, local),
            end1,
        ),
{
    let x = qname_text(prefix, local);
    let cs = "child::"@ + x;
    reveal_strlit("child::");
    reveal_strlit("child");
    let w = "child"@;
    lemma_ascii_word(w);
    assert(cs.take(5) =~= w);
    assert(cs.skip(7) =~= x);
    lemma_lex_axis_qname(cs, w, prefix, local);
    lemma_lex_qname(prefix, local);
    let u = seq![(TokenView::Name { prefix, local }, byte_pos(x, 0))];
    let v = seq![
        (TokenView::Name { prefix: None, local: w }, byte_pos(cs, 0)),
        (TokenView::ColonColon, byte_pos(cs, 5)),
        (TokenView::Name { prefix, local }, byte_pos(cs, 7)),
    ];
    lemma_child_tokens(u, v, end1, prefix, local);
    lemma_child_tokens(u, v, end2, prefix, local);
}

/// The step `@q` reads as the step `attribute::q`: the two parse to the
/// same expression, whatever `QName` `q` is.
#[verifier::spinoff_prover]
#[verifier::rlimit(40)]
pub proof fn law_attribute_abbreviation_in_text(
    prefix: Option<Seq<char>>,
    local: Seq<char>,
    end1: int,
    end2: int,
)
    requires
        qname_ok(prefix, local),
    ensures
        parse_spec("@"@ + qname_text(prefix, local), end1) == Ok::<ExprView, ErrorView>(
            one_step_path(name_step(Axis::Attribute, prefix, local)),
        ),
        parse_spec("attribute::"@ + qname_text(prefix, local), end2) == parse_spec(
            "@"@ + qname_text(prefix, local),
            end1,
        ),
{
    let x = qname_text(prefix, local);
    let cs = "attribute::"@ + x;
    reveal_strlit("attribute::");
    reveal_strlit("attribute");
    reveal_strlit("@");
    let w = "attribute"@;
    lemma_ascii_word(w);
    assert(cs.take(9) =~= w);
    assert(cs.skip(11) =~= x);
    lemma_lex_axis_qname(cs, w, prefix, local);
    let at = "@"@ + x;
    assert(at.skip(1) =~= x);
    lemma_lex_qname_rest(at, 1, Some(TokenView::At), prefix, local);
    assert(ws_end(at, 0) == 0);
    assert(scan(at, 0, true) == Ok::<(TokenView, int), ErrorView>((TokenView::At, 1)));
    assert(lex(at) == Ok::<Seq<(TokenView, int)>, ErrorView>(
        seq![(TokenView::At, byte_pos(at, 0))] + seq![
            (TokenView::Name { prefix, local }, byte_pos(at, 1)),
        ],
    ));
    let u = seq![
        (TokenView::At, byte_pos(at, 0)),
        (TokenView::Name { prefix, local }, byte_pos(at, 1)),
    ];
    assert(seq![(TokenView::At, byte_pos(at, 0))] + seq![
        (TokenView::Name { prefix, local }, byte_pos(at, 1)),
    ] =~= u);
    let v = seq![
        (TokenView::Name { prefix: None, local: w }, byte_pos(cs, 0)),
        (TokenView::ColonColon, byte_pos(cs, 9)),
        (TokenView::Name { prefix, local }, byte_pos(cs, 11)),
    ];
    lemma_attribute_tokens(u, v, end1, prefix, local);
    lemma_attribute_tokens(u, v, end2, prefix, local);
}


/// `w::node()`: five tokens.
#[verifier::spinoff_prover]
#[verifier::rlimit(40)]
proof fn lemma_lex_axis_node(cs: Seq<char>, w: Seq<char>)
    requires
        ncname(w),
        cs.len() == w.len() + 8,
        cs.take(w.len() as int) == w,
        cs[w.len() as int] == ':',
        cs[w.len() as int + 1] == ':',
        cs[w.len() as int + 2] == 'n',
        cs[w.len() as int + 3] == 'o',
        cs[w.len() as int + 4] == 'd',
        cs[w.len() as int + 5] == 'e',
        cs[w.len() as int + 6] == '(',
        cs[w.len() as int + 7] == ')',
    ensures
        lex(cs) == Ok::<Seq<(TokenView, int)>, ErrorView>(
            seq![
                (TokenView::Name { prefix: None, local: w }, byte_pos(cs, 0)),
                (TokenView::ColonColon, byte_pos(cs, w.len() as int)),
                (TokenView::Name { prefix: None, local: "node"@ }, byte_pos(cs, w.len() as int + 2)),
                (TokenView::LParen, byte_pos(cs, w.len() as int + 6)),
                (TokenView::RParen, byte_pos(cs, w.len() as int + 7)),
            ],
        ),
{
    let wl = w.len() as int;
    reveal_strlit("node");
    let tw = TokenView::Name { prefix: None, local: w };
    let tn = TokenView::Name { prefix: None, local: "node"@ };
    // `)` and the end.
    lemma_lex_at_end(cs, Some(TokenView::RParen));
    assert(ws_end(cs, wl + 7) == wl + 7);
    assert(scan(cs, wl + 7, true) == Ok::<(TokenView, int), ErrorView>((TokenView::RParen, wl + 8)));
    let r7 = seq![(TokenView::RParen, byte_pos(cs, wl + 7))];
    assert(lex_from(cs, wl + 7, Some(TokenView::LParen)) == Ok::<Seq<(TokenView, int)>, ErrorView>(
        r7 + Seq::empty(),
    ));
    assert(r7 + Seq::<(TokenView, int)>::empty() =~= r7);
    // `(`.
    assert(ws_end(cs, wl + 6) == wl + 6);
    assert(scan(cs, wl + 6, false) == Ok::<(TokenView, int), ErrorView>((TokenView::LParen, wl + 7)));
    let r6 = seq![(TokenView::LParen, byte_pos(cs, wl + 6))] + r7;
    assert(lex_from(cs, wl + 6, Some(tn)) == Ok::<Seq<(TokenView, int)>, ErrorView>(r6));
    // `node`.
    assert(name_char(cs[wl + 3]) && name_char(cs[wl + 4]) && name_char(cs[wl + 5]));
    assert(!name_char(cs[wl + 6]));
    lemma_scan_word(cs, wl + 2, wl + 6, true);
    assert(cs.subrange(wl + 2, wl + 6) =~= "node"@);
    assert(name_or_operator("node"@, true) == tn);
    let r2 = seq![(tn, byte_pos(cs, wl + 2))] + r6;
    assert(lex_from(cs, wl + 2, Some(TokenView::ColonColon)) == Ok::<Seq<(TokenView, int)>, ErrorView>(
        r2,
    ));
    // `::`.
    assert(ws_end(cs, wl) == wl);
    assert(single_char_token(':') is None);
    assert(scan(cs, wl, false) == Ok::<(TokenView, int), ErrorView>((TokenView::ColonColon, wl + 2)));
    let r0 = seq![(TokenView::ColonColon, byte_pos(cs, wl))] + r2;
    assert(lex_from(cs, wl, Some(tw)) == Ok::<Seq<(TokenView, int)>, ErrorView>(r0));
    // `w`.
    assert forall|m: int| 0 <= m < wl implies cs[m] == #[trigger] w[m] by {
        assert(cs.take(wl)[m] == cs[m]);
    }
    assert forall|m: int| 0 < m < wl implies #[trigger] name_char(cs[m]) by {
        assert(name_char(w[m]));
    }
    lemma_scan_word(cs, 0, wl, true);
    assert(cs.subrange(0, wl) =~= w);
    assert(name_or_operator(w, true) == tw);
    assert(ws_end(cs, 0) == 0);
    assert(lex(cs) == Ok::<Seq<(TokenView, int)>, ErrorView>(seq![(tw, byte_pos(cs, 0))] + r0));
    assert(seq![(tw, byte_pos(cs, 0))] + r0 =~= seq![
        (tw, byte_pos(cs, 0)),
        (TokenView::ColonColon, byte_pos(cs, wl)),
        (tn, byte_pos(cs, wl + 2)),
        (TokenView::LParen, byte_pos(cs, wl + 6)),
        (TokenView::RParen, byte_pos(cs, wl + 7)),
    ]);
}

/// The step `.` reads as the step `self::node()`: the two parse to the
/// same expression.
#[verifier::spinoff_prover]
#[verifier::rlimit(40)]
pub proof fn law_self_abbreviation_in_text(end1: int, end2: int)
    ensures
        parse_spec("."@, end1) == Ok::<ExprView, ErrorView>(one_step_path(node_step(Axis::SelfAxis))),
        parse_spec("self::node()"@, end2) == parse_spec("."@, end1),
{
    reveal_strlit(".");
    reveal_strlit("self::node()");
    reveal_strlit("self");
    let w = "self"@;
    lemma_ascii_word(w);
    let cs = "self::node()"@;
    assert(cs.take(4) =~= w);
    lemma_lex_axis_node(cs, w);
    let d = "."@;
    lemma_lex_at_end(d, Some(TokenView::Dot));
    assert(ws_end(d, 0) == 0);
    assert(scan(d, 0, true) == Ok::<(TokenView, int), ErrorView>((TokenView::Dot, 1)));
    let u = seq![(TokenView::Dot, byte_pos(d, 0))];
    assert(lex(d) == Ok::<Seq<(TokenView, int)>, ErrorView>(u + Seq::empty()));
    assert(u + Seq::<(TokenView, int)>::empty() =~= u);
    let v = lex(cs)->Ok_0;
    lemma_node_step_tokens(u, v, end1, Axis::SelfAxis, w);
    lemma_node_step_tokens(u, v, end2, Axis::SelfAxis, w);
}

/// The step `..` reads as the step `parent::node()`: the two parse to the
/// same expression.
#[verifier::spinoff_prover]
#[verifier::rlimit(40)]
pub proof fn law_parent_abbreviation_in_text(end1: int, end2: int)
    ensures
        parse_spec(".."@, end1) == Ok::<ExprView, ErrorView>(one_step_path(node_step(Axis::Parent))),
        parse_spec("parent::node()"@, end2) == parse_spec(".."@, end1),
{
    reveal_strlit("..");
    reveal_strlit("parent::node()");
    reveal_strlit("parent");
    let w = "parent"@;
    lemma_ascii_word(w);
    let cs = "parent::node()"@;
    assert(cs.take(6) =~= w);
    lemma_lex_axis_node(cs, w);
    let d = ".."@;
    lemma_lex_at_end(d, Some(TokenView::DotDot));
    assert(ws_end(d, 0) == 0);
    assert(scan(d, 0, true) == Ok::<(TokenView, int), ErrorView>((TokenView::DotDot, 2)));
    let u = seq![(TokenView::DotDot, byte_pos(d, 0))];
    assert(lex(d) == Ok::<Seq<(TokenView, int)>, ErrorView>(u + Seq::empty()));
    assert(u + Seq::<(TokenView, int)>::empty() =~= u);
    let v = lex(cs)->Ok_0;
    lemma_node_step_tokens(u, v, end1, Axis::Parent, w);
    lemma_node_step_tokens(u, v, end2, Axis::Parent, w);
}


/// `w::node()` from index `a`, where an operand is due, then whatever the
/// tokens after it are.
#[verifier::spinoff_prover]
#[verifier::rlimit(40)]
proof fn lemma_lex_from_axis_node(
    cs: Seq<char>,
    a: int,
    w: Seq<char>,
    prev: Option<TokenView>,
    rest: Seq<(TokenView, int)>,
)
    requires
        ncname(w),
        0 <= a,
        operand_follows(prev),
        cs.len() >= a + w.len() + 8,
        forall|m: int| 0 <= m < w.len() ==> cs[a + m] == #[trigger] w[m],
        cs[a + w.len()] == ':',
        cs[a + w.len() + 1] == ':',
        cs[a + w.len() + 2] == 'n',
        cs[a + w.len() + 3] == 'o',
        cs[a + w.len() + 4] == 'd',
        cs[a + w.len() + 5] == 'e',
        cs[a + w.len() + 6] == '(',
        cs[a + w.len() + 7] == ')',
        lex_from(cs, a + w.len() + 8, Some(TokenView::RParen)) == Ok::<
            Seq<(TokenView, int)>,
            ErrorView,
        >(rest),
    ensures
        lex_from(cs, a, prev) == Ok::<Seq<(TokenView, int)>, ErrorView>(
            seq![
                (TokenView::Name { prefix: None, local: w }, byte_pos(cs, a)),
                (TokenView::ColonColon, byte_pos(cs, a + w.len())),
                (TokenView::Name { prefix: None, local: "node"@ }, byte_pos(cs, a + w.len() + 2)),
                (TokenView::LParen, byte_pos(cs, a + w.len() + 6)),
                (TokenView::RParen, byte_pos(cs, a + w.len() + 7)),
            ] + rest,
        ),
{
    let b = a + w.len();
    reveal_strlit("node");
    let tw = TokenView::Name { prefix: None, local: w };
    let tn = TokenView::Name { prefix: None, local: "node"@ };
    assert(ws_end(cs, b + 7) == b + 7);
    assert(scan(cs, b + 7, true) == Ok::<(TokenView, int), ErrorView>((TokenView::RParen, b + 8)));
    let r7 = seq![(TokenView::RParen, byte_pos(cs, b + 7))] + rest;
    assert(lex_from(cs, b + 7, Some(TokenView::LParen)) == Ok::<Seq<(TokenView, int)>, ErrorView>(
        r7,
    ));
    assert(ws_end(cs, b + 6) == b + 6);
    assert(scan(cs, b + 6, false) == Ok::<(TokenView, int), ErrorView>((TokenView::LParen, b + 7)));
    let r6 = seq![(TokenView::LParen, byte_pos(cs, b + 6))] + r7;
    assert(lex_from(cs, b + 6, Some(tn)) == Ok::<Seq<(TokenView, int)>, ErrorView>(r6));
    assert(name_char(cs[b + 3]) && name_char(cs[b + 4]) && name_char(cs[b + 5]));
    assert(!name_char(cs[b + 6]));
    lemma_scan_word(cs, b + 2, b + 6, true);
    assert(cs.subrange(b + 2, b + 6) =~= "node"@);
    assert(name_or_operator("node"@, true) == tn);
    let r2 = seq![(tn, byte_pos(cs, b + 2))] + r6;
    assert(lex_from(cs, b + 2, Some(TokenView::ColonColon)) == Ok::<Seq<(TokenView, int)>, ErrorView>(
        r2,
    ));
    assert(ws_end(cs, b) == b);
    assert(single_char_token(':') is None);
    assert(scan(cs, b, false) == Ok::<(TokenView, int), ErrorView>((TokenView::ColonColon, b + 2)));
    let r0 = seq![(TokenView::ColonColon, byte_pos(cs, b))] + r2;
    assert(lex_from(cs, b, Some(tw)) == Ok::<Seq<(TokenView, int)>, ErrorView>(r0));
    assert forall|m: int| a < m < b implies #[trigger] name_char(cs[m]) by {
        assert(cs[a + (m - a)] == w[m - a]);
    }
    assert(cs[a + 0] == w[0]);
    lemma_scan_word(cs, a, b, true);
    assert(cs.subrange(a, b) =~= w);
    assert(name_or_operator(w, true) == tw);
    assert(ws_end(cs, a) == a);
    assert(lex_from(cs, a, prev) == Ok::<Seq<(TokenView, int)>, ErrorView>(
        seq![(tw, byte_pos(cs, a))] + r0,
    ));
    assert(seq![(tw, byte_pos(cs, a))] + r0 =~= seq![
        (tw, byte_pos(cs, a)),
        (TokenView::ColonColon, byte_pos(cs, b)),
        (tn, byte_pos(cs, b + 2)),
        (TokenView::LParen, byte_pos(cs, b + 6)),
        (TokenView::RParen, byte_pos(cs, b + 7)),
    ] + rest);
}

/// The absolute path `//q`, as steps: `descendant-or-self::node()`, then
/// `child::q`.
pub open spec fn descendant_name_path(prefix: Option<Seq<char>>, local: Seq<char>) -> ExprView {
    ExprView::Path(
        PathView::Location(
            LocationPathView {
                is_absolute: true,
                steps: seq![dos_step(), name_step(Axis::Child, prefix, local)],
            },
        ),
    )
}

/// `//q` and `/descendant-or-self::node()/q` as tokens: the same path.
#[verifier::spinoff_prover]
#[verifier::rlimit(40)]
proof fn lemma_descendant_tokens(
    u: Toks,
    v: Toks,
    end: int,
    prefix: Option<Seq<char>>,
    local: Seq<char>,
)
    requires
        u.len() == 2,
        u[0].0 == TokenView::SlashSlash,
        u[1].0 == (TokenView::Name { prefix, local }),
        v.len() == 8,
        v[0].0 == TokenView::Slash,
        v[1].0 == (TokenView::Name { prefix: None, local: "descendant-or-self"@ }),
        v[2].0 == TokenView::ColonColon,
        v[3].0 == (TokenView::Name { prefix: None, local: "node"@ }),
        v[4].0 == TokenView::LParen,
        v[5].0 == TokenView::RParen,
        v[6].0 == TokenView::Slash,
        v[7].0 == (TokenView::Name { prefix, local }),
    ensures
        p_expr(u, 0, end) == Ok::<(ExprView, int), ErrorView>(
            (descendant_name_path(prefix, local), 2),
        ),
        p_expr(v, 0, end) == Ok::<(ExprView, int), ErrorView>(
            (descendant_name_path(prefix, local), 8),
        ),
{
    lemma_axis_names();
    let s = name_step(Axis::Child, prefix, local);
    lemma_last_name_test(u, 1, end, prefix, local);
    lemma_last_name_test(v, 7, end, prefix, local);
    assert(axis_at(u, 1) is None);
    assert(p_step(u, 1, end) == Ok::<(StepView, int), ErrorView>((s, 2)));
    assert(tok(u, 2) is None);
    assert(steps_rest(u, 2, end, seq![s]) == Ok::<(Seq<StepView>, int), ErrorView>((seq![s], 2)));
    assert(seq![dos_step()] + seq![s] =~= seq![dos_step(), s]);
    assert(p_location(u, 0, end) == Ok::<(LocationPathView, int), ErrorView>(
        (LocationPathView { is_absolute: true, steps: seq![dos_step(), s] }, 2),
    ));
    lemma_path_is_expr(u, end, descendant_name_path(prefix, local));
    assert(axis_spelled(v, 1, Axis::DescendantOrSelf));
    assert(node_call_at(v, 3));
    lemma_spelled_node_step(v, 1, end, Axis::DescendantOrSelf);
    assert(axis_at(v, 7) is None);
    assert(p_step(v, 7, end) == Ok::<(StepView, int), ErrorView>((s, 8)));
    assert(tok(v, 8) is None);
    assert(steps_rest(v, 8, end, seq![dos_step(), s]) == Ok::<(Seq<StepView>, int), ErrorView>(
        (seq![dos_step(), s], 8),
    ));
    assert(seq![dos_step()].push(s) =~= seq![dos_step(), s]);
    assert(steps_rest(v, 6, end, seq![dos_step()]) == Ok::<(Seq<StepView>, int), ErrorView>(
        (seq![dos_step(), s], 8),
    ));
    assert(can_start_step(v, 1));
    assert(p_location(v, 0, end) == Ok::<(LocationPathView, int), ErrorView>(
        (LocationPathView { is_absolute: true, steps: seq![dos_step(), s] }, 8),
    ));
    lemma_path_is_expr(v, end, descendant_name_path(prefix, local));
}

/// `//q`: two tokens.
#[verifier::spinoff_prover]
proof fn lemma_lex_double_slash(prefix: Option<Seq<char>>, local: Seq<char>)
    requires
        qname_ok(prefix, local),
    ensures
        lex("//"@ + qname_text(prefix, local)) == Ok::<Seq<(TokenView, int)>, ErrorView>(
            seq![
                (TokenView::SlashSlash, byte_pos("//"@ + qname_text(prefix, local), 0)),
                (TokenView::Name { prefix, local }, byte_pos("//"@ + qname_text(prefix, local), 2)),
            ],
        ),
{
    let x = qname_text(prefix, local);
    let tq = TokenView::Name { prefix, local };
    reveal_strlit("//");
    let cu = "//"@ + x;
    assert(cu.skip(2) =~= x);
    lemma_lex_qname_rest(cu, 2, Some(TokenView::SlashSlash), prefix, local);
    assert(ws_end(cu, 0) == 0);
    assert(scan(cu, 0, true) == Ok::<(TokenView, int), ErrorView>((TokenView::SlashSlash, 2)));
    let u = seq![(TokenView::SlashSlash, byte_pos(cu, 0)), (tq, byte_pos(cu, 2))];
    assert(seq![(TokenView::SlashSlash, byte_pos(cu, 0))] + seq![(tq, byte_pos(cu, 2))] =~= u);
}

/// The tokens of `/descendant-or-self::node()/q`.
pub open spec fn spelled_descendant_tokens(cv: Seq<char>, q: TokenView) -> Toks {
    seq![
        (TokenView::Slash, byte_pos(cv, 0)),
        (TokenView::Name { prefix: None, local: "descendant-or-self"@ }, byte_pos(cv, 1)),
        (TokenView::ColonColon, byte_pos(cv, 19)),
        (TokenView::Name { prefix: None, local: "node"@ }, byte_pos(cv, 21)),
        (TokenView::LParen, byte_pos(cv, 25)),
        (TokenView::RParen, byte_pos(cv, 26)),
        (TokenView::Slash, byte_pos(cv, 27)),
        (q, byte_pos(cv, 28)),
    ]
}

/// `/descendant-or-self::node()/q`: eight tokens.
#[verifier::spinoff_prover]
#[verifier::rlimit(40)]
proof fn lemma_lex_spelled_descendant(prefix: Option<Seq<char>>, local: Seq<char>)
    requires
        qname_ok(prefix, local),
    ensures
        lex("/descendant-or-self::node()/"@ + qname_text(prefix, local)) == Ok::<
            Seq<(TokenView, int)>,
            ErrorView,
        >(
            spelled_descendant_tokens(
                "/descendant-or-self::node()/"@ + qname_text(prefix, local),
                TokenView::Name { prefix, local },
            ),
        ),
{
    let x = qname_text(prefix, local);
    let tq = TokenView::Name { prefix, local };
    reveal_strlit("/descendant-or-self::node()/");
    reveal_strlit("descendant-or-self");
    let w = "descendant-or-self"@;
    lemma_ascii_word(w);
    let cv = "/descendant-or-self::node()/"@ + x;
    assert(cv.len() == 28 + x.len());
    assert(cv.skip(28) =~= x);
    lemma_lex_qname_rest(cv, 28, Some(TokenView::Slash), prefix, local);
    let rq = seq![(tq, byte_pos(cv, 28))];
    assert(x[0] == cv[28]);
    assert(name_start(x[0]));
    assert(ws_end(cv, 27) == 27);
    assert(scan(cv, 27, false) == Ok::<(TokenView, int), ErrorView>((TokenView::Slash, 28)));
    let r27 = seq![(TokenView::Slash, byte_pos(cv, 27))] + rq;
    assert(lex_from(cv, 27, Some(TokenView::RParen)) == Ok::<Seq<(TokenView, int)>, ErrorView>(r27));
    assert forall|m: int| 0 <= m < w.len() implies cv[1 + m] == #[trigger] w[m] by {}
    lemma_lex_from_axis_node(cv, 1, w, Some(TokenView::Slash), r27);
    let mid = seq![
        (TokenView::Name { prefix: None, local: w }, byte_pos(cv, 1)),
        (TokenView::ColonColon, byte_pos(cv, 19)),
        (TokenView::Name { prefix: None, local: "node"@ }, byte_pos(cv, 21)),
        (TokenView::LParen, byte_pos(cv, 25)),
        (TokenView::RParen, byte_pos(cv, 26)),
    ];
    assert(ws_end(cv, 0) == 0);
    assert(scan(cv, 0, true) == Ok::<(TokenView, int), ErrorView>((TokenView::Slash, 1)));
    assert(lex(cv) == Ok::<Seq<(TokenView, int)>, ErrorView>(
        seq![(TokenView::Slash, byte_pos(cv, 0))] + (mid + r27),
    ));
    assert(seq![(TokenView::Slash, byte_pos(cv, 0))] + (mid + r27) =~= spelled_descendant_tokens(
        cv,
        tq,
    ));
}

/// `//q` reads as `/descendant-or-self::node()/q`: the two parse to the
/// same expression, whatever `QName` `q` is.
#[verifier::spinoff_prover]
pub proof fn law_descendant_abbreviation_in_text(
    prefix: Option<Seq<char>>,
    local: Seq<char>,
    end1: int,
    end2: int,
)
    requires
        qname_ok(prefix, local),
    ensures
        parse_spec("//"@ + qname_text(prefix, local), end1) == Ok::<ExprView, ErrorView>(
            descendant_name_path(prefix, local),
        ),
        parse_spec("/descendant-or-self::node()/"@ + qname_text(prefix, local), end2)
            == parse_spec("//"@ + qname_text(prefix, local), end1),
{
    let x = qname_text(prefix, local);
    let tq = TokenView::Name { prefix, local };
    let cu = "//"@ + x;
    let cv = "/descendant-or-self::node()/"@ + x;
    lemma_lex_double_slash(prefix, local);
    lemma_lex_spelled_descendant(prefix, local);
    let u = seq![(TokenView::SlashSlash, byte_pos(cu, 0)), (tq, byte_pos(cu, 2))];
    let v = spelled_descendant_tokens(cv, tq);
    lemma_descendant_tokens(u, v, end1, prefix, local);
    lemma_descendant_tokens(u, v, end2, prefix, local);
}


// ---- `//` before any relative path ------------------------------------------

/// The tokens of a text: the token `t` at byte `pos`, then those of `r`.
pub open spec fn cons_lexed(t: TokenView, pos: int, r: Result<Toks, ErrorView>) -> Result<
    Toks,
    ErrorView,
> {
    match r {
        Ok(ts) => Ok(seq![(t, pos)] + ts),
        Err(e) => Err(e),
    }
}

/// A parse of a whole text, with its error, if any, `d` bytes further on.
pub open spec fn parse_moved(r: Result<ExprView, ErrorView>, d: int) -> Result<ExprView, ErrorView> {
    match r {
        Ok(e) => Ok(e),
        Err(err) => Err(error_moved(err, d)),
    }
}

/// One token read at `j`, then the rest.
proof fn lemma_lex_step(cs: Seq<char>, j: int, prev: Option<TokenView>, t: TokenView, k: int)
    requires
        0 <= j < cs.len(),
        !is_xml_ws(cs[j]),
        scan(cs, j, operand_follows(prev)) == Ok::<(TokenView, int), ErrorView>((t, k)),
    ensures
        lex_from(cs, j, prev) == cons_lexed(t, byte_pos(cs, j), lex_from(cs, k, Some(t))),
{
    assert(ws_end(cs, j) == j);
}

/// Where the characters before `k` are ASCII, byte `k` is character `k`.
proof fn lemma_ascii_bytes(cs: Seq<char>, k: int)
    requires
        0 <= k <= cs.len(),
        forall|i: int| 0 <= i < k ==> (#[trigger] cs[i] as int) < 0x80,
    ensures
        byte_pos(cs, k) == k,
    decreases k,
{
    if k > 0 {
        lemma_ascii_bytes(cs, k - 1);
    }
}

/// Only the operand rule reads the token before.
proof fn lemma_lex_prev(x: Seq<char>, p1: TokenView, p2: TokenView)
    requires
        operand_follows(Some(p1)) == operand_follows(Some(p2)),
    ensures
        lex_from(x, 0, Some(p1)) == lex_from(x, 0, Some(p2)),
{
}

/// The tokens of `//` followed by `rest`.
#[verifier::spinoff_prover]
proof fn lemma_lex_slashes(rest: Seq<char>)
    ensures
        lex("//"@ + rest) == cons_lexed(
            TokenView::SlashSlash,
            0,
            lexed_moved(lex_from(rest, 0, Some(TokenView::SlashSlash)), 2),
        ),
{
    reveal_strlit("//");
    let cu = "//"@ + rest;
    assert(cu.skip(2) =~= rest);
    assert(single_char_token('/') is None);
    assert(scan(cu, 0, true) == Ok::<(TokenView, int), ErrorView>((TokenView::SlashSlash, 2)));
    lemma_lex_step(cu, 0, None, TokenView::SlashSlash, 2);
    law_lex_rest(cu, 2, Some(TokenView::SlashSlash));
    lemma_ascii_bytes(cu, 2);
    assert(byte_pos(cu, 0) == 0);
}

/// The tokens of `/descendant-or-self::node()/` followed by `rest`, which
/// does not start with '/'.
#[verifier::spinoff_prover]
#[verifier::rlimit(60)]
proof fn lemma_lex_spelled_slashes(rest: Seq<char>)
    requires
        rest.len() == 0 || rest[0] != '/',
    ensures
        lex("/descendant-or-self::node()/"@ + rest) == cons_lexed(
            TokenView::Slash,
            0,
            cons_lexed(
                TokenView::Name { prefix: None, local: "descendant-or-self"@ },
                1,
                cons_lexed(
                    TokenView::ColonColon,
                    19,
                    cons_lexed(
                        TokenView::Name { prefix: None, local: "node"@ },
                        21,
                        cons_lexed(
                            TokenView::LParen,
                            25,
                            cons_lexed(
                                TokenView::RParen,
                                26,
                                cons_lexed(
                                    TokenView::Slash,
                                    27,
                                    lexed_moved(lex_from(rest, 0, Some(TokenView::Slash)), 28),
                                ),
                            ),
                        ),
                    ),
                ),
            ),
        ),
{
    reveal_strlit("/descendant-or-self::node()/");
    reveal_strlit("descendant-or-self");
    reveal_strlit("node");
    let w = "descendant-or-self"@;
    let cv = "/descendant-or-self::node()/"@ + rest;
    assert(cv.len() == 28 + rest.len());
    assert(cv.skip(28) =~= rest);
    assert forall|i: int| 0 <= i < 28 implies (#[trigger] cv[i] as int) < 0x80 by {}
    lemma_ascii_bytes(cv, 28);
    let tw = TokenView::Name { prefix: None, local: w };
    let tn = TokenView::Name { prefix: None, local: "node"@ };
    assert(single_char_token('/') is None);
    assert(single_char_token(':') is None);
    assert(scan(cv, 0, true) == Ok::<(TokenView, int), ErrorView>((TokenView::Slash, 1)));
    lemma_lex_step(cv, 0, None, TokenView::Slash, 1);
    assert forall|m: int| 1 < m < 19 implies #[trigger] name_char(cv[m]) by {}
    lemma_scan_word(cv, 1, 19, true);
    assert(cv.subrange(1, 19) =~= w);
    lemma_lex_step(cv, 1, Some(TokenView::Slash), tw, 19);
    assert(scan(cv, 19, false) == Ok::<(TokenView, int), ErrorView>((TokenView::ColonColon, 21)));
    lemma_lex_step(cv, 19, Some(tw), TokenView::ColonColon, 21);
    assert forall|m: int| 21 < m < 25 implies #[trigger] name_char(cv[m]) by {}
    lemma_scan_word(cv, 21, 25, true);
    assert(cv.subrange(21, 25) =~= "node"@);
    lemma_lex_step(cv, 21, Some(TokenView::ColonColon), tn, 25);
    assert(scan(cv, 25, false) == Ok::<(TokenView, int), ErrorView>((TokenView::LParen, 26)));
    lemma_lex_step(cv, 25, Some(tn), TokenView::LParen, 26);
    assert(scan(cv, 26, true) == Ok::<(TokenView, int), ErrorView>((TokenView::RParen, 27)));
    lemma_lex_step(cv, 26, Some(TokenView::LParen), TokenView::RParen, 27);
    assert(char_at_is_not_slash(cv, 28));
    assert(scan(cv, 27, false) == Ok::<(TokenView, int), ErrorView>((TokenView::Slash, 28)));
    lemma_lex_step(cv, 27, Some(TokenView::RParen), TokenView::Slash, 28);
    law_lex_rest(cv, 28, Some(TokenView::Slash));
    lemma_ascii_bytes(cv, 1);
    lemma_ascii_bytes(cv, 19);
    lemma_ascii_bytes(cv, 21);
    lemma_ascii_bytes(cv, 25);
    lemma_ascii_bytes(cv, 26);
    lemma_ascii_bytes(cv, 27);
}

/// The character at `i`, if there is one, is not '/'.
spec fn char_at_is_not_slash(cs: Seq<char>, i: int) -> bool {
    crate::lexer::char_at(cs, i) != Some('/')
}

/// A union continued at `p` ends no earlier.
proof fn lemma_union_rest_ge(t: Toks, p: int, end: int, lhs: ExprView)
    ensures
        union_rest(t, p, end, lhs) matches Ok((x, q)) ==> q >= p,
    decreases t.len() - p,
{
    if tok(t, p) == Some(TokenView::Pipe) {
        if let Ok((rhs, p2)) = p_path(t, p + 1, end) {
            if p < p2 <= t.len() {
                lemma_union_rest_ge(t, p2, end, ExprView::Union(Box::new(lhs), Box::new(rhs)));
            }
        }
    }
}

/// A binary expression continued at `p` ends no earlier.
proof fn lemma_binary_rest_ge(t: Toks, p: int, end: int, level: nat, lhs: ExprView)
    ensures
        binary_rest(t, p, end, level, lhs) matches Ok((x, q)) ==> q >= p,
    decreases t.len() - p,
{
    if let Some(op) = op_at(level, tok(t, p)) {
        let next = if level <= 1 {
            p_unary(t, p + 1, end)
        } else {
            p_binary(t, p + 1, end, (level - 1) as nat)
        };
        if let Ok((rhs, p2)) = next {
            if p < p2 <= t.len() {
                lemma_binary_rest_ge(t, p2, end, level, combine(op, lhs, rhs));
            }
        }
    }
}

/// Steps continued at `p` end no earlier.
proof fn lemma_steps_rest_ge(t: Toks, p: int, end: int, acc: Seq<StepView>)
    ensures
        steps_rest(t, p, end, acc) matches Ok((x, q)) ==> q >= p,
    decreases t.len() - p,
{
    if tok(t, p) == Some(TokenView::Slash) || tok(t, p) == Some(TokenView::SlashSlash) {
        if let Ok((s, p2)) = p_step(t, p + 1, end) {
            if p < p2 <= t.len() {
                if tok(t, p) == Some(TokenView::Slash) {
                    lemma_steps_rest_ge(t, p2, end, acc.push(s));
                } else {
                    lemma_steps_rest_ge(t, p2, end, acc.push(dos_step()).push(s));
                }
            }
        }
    }
}

/// Corresponding paths at the start make corresponding unions.
#[verifier::spinoff_prover]
#[verifier::rlimit(40)]
proof fn lemma_chain_union(u: Toks, v: Toks, e: int, d: int, s: int, k0: int)
    requires
        0 <= k0,
        same_from(u, k0 + s, v, k0, d),
        p_path(u, 0, e + d) == moved(p_path(v, 0, e), s, d),
        p_path(v, 0, e) matches Ok((x, q)) ==> q >= k0,
    ensures
        p_union(u, 0, e + d) == moved(p_union(v, 0, e), s, d),
        p_union(v, 0, e) matches Ok((x, q)) ==> q >= k0,
{
    lemma_same_from_ahead(u, k0 + s, v, k0, d, 0);
    match p_path(v, 0, e) {
        Err(err) => {
            assert(p_union(v, 0, e) == Err::<(ExprView, int), ErrorView>(err));
            assert(p_union(u, 0, e + d) == Err::<(ExprView, int), ErrorView>(error_moved(err, d)));
        },
        Ok((lhs, p1)) => {
            assert(p_path(u, 0, e + d) == Ok::<(ExprView, int), ErrorView>((lhs, p1 + s)));
            if p1 <= v.len() {
                lemma_same_from_ahead(u, k0 + s, v, k0, d, p1 - k0);
                lemma_moves_union_rest(u, p1 + s, v, p1, e, d, lhs);
                lemma_union_rest_ge(v, p1, e, lhs);
                assert(p_union(v, 0, e) == union_rest(v, p1, e, lhs));
                assert(p_union(u, 0, e + d) == union_rest(u, p1 + s, e + d, lhs));
            } else {
                assert(p_union(v, 0, e) == Err::<(ExprView, int), ErrorView>(
                    crate::parser::stuck(e),
                ));
                assert(p_union(u, 0, e + d) == Err::<(ExprView, int), ErrorView>(
                    crate::parser::stuck(e + d),
                ));
            }
        },
    }
}

/// Two token sequences whose paths at the start correspond, and that
/// agree from index `k0` of `v` on (where every path of `v` ends), read as
/// corresponding expressions of the given level.
#[verifier::spinoff_prover]
#[verifier::rlimit(40)]
proof fn lemma_chain_binary(u: Toks, v: Toks, e: int, d: int, s: int, k0: int, level: nat)
    requires
        0 <= k0,
        same_from(u, k0 + s, v, k0, d),
        tok(u, 0) != Some(TokenView::Minus),
        tok(v, 0) != Some(TokenView::Minus),
        p_path(u, 0, e + d) == moved(p_path(v, 0, e), s, d),
        p_path(v, 0, e) matches Ok((x, q)) ==> q >= k0,
    ensures
        p_binary(u, 0, e + d, level) == moved(p_binary(v, 0, e, level), s, d),
        p_binary(v, 0, e, level) matches Ok((x, q)) ==> q >= k0,
    decreases level,
{
    lemma_same_from_ahead(u, k0 + s, v, k0, d, 0);
    lemma_chain_union(u, v, e, d, s, k0);
    assert(p_unary(u, 0, e + d) == p_union(u, 0, e + d));
    assert(p_unary(v, 0, e) == p_union(v, 0, e));
    if level > 1 {
        lemma_chain_binary(u, v, e, d, s, k0, (level - 1) as nat);
    }
    let first = if level <= 1 {
        p_unary(v, 0, e)
    } else {
        p_binary(v, 0, e, (level - 1) as nat)
    };
    if let Ok((lhs, p1)) = first {
        if 0 <= p1 <= v.len() {
            lemma_same_from_ahead(u, k0 + s, v, k0, d, p1 - k0);
            lemma_moves_binary_rest(u, p1 + s, v, p1, e, d, level, lhs);
            lemma_binary_rest_ge(v, p1, e, level, lhs);
        }
    }
}

/// The tokens of `//b`, where `l` are those of `b`.
pub open spec fn slashes_tokens(l: Toks) -> Toks {
    seq![(TokenView::SlashSlash, 0int)] + tokens_moved(l, 2)
}

/// The tokens of `/descendant-or-self::node()/b`, where `l` are those of `b`.
pub open spec fn spelled_slashes_tokens(l: Toks) -> Toks {
    seq![
        (TokenView::Slash, 0int),
        (TokenView::Name { prefix: None, local: "descendant-or-self"@ }, 1),
        (TokenView::ColonColon, 19),
        (TokenView::Name { prefix: None, local: "node"@ }, 21),
        (TokenView::LParen, 25),
        (TokenView::RParen, 26),
        (TokenView::Slash, 27),
    ] + tokens_moved(l, 28)
}

/// The expressions the two token sequences form correspond.
#[verifier::spinoff_prover]
#[verifier::rlimit(60)]
proof fn lemma_slashes_parse(l: Toks, end: int)
    ensures
        same_from(slashes_tokens(l), 1, spelled_slashes_tokens(l), 7, -26),
        p_expr(slashes_tokens(l), 0, end) == moved(
            p_expr(spelled_slashes_tokens(l), 0, end + 26),
            -6,
            -26,
        ),
        p_expr(spelled_slashes_tokens(l), 0, end + 26) matches Ok((x, q)) ==> q >= 7,
{
    let u = slashes_tokens(l);
    let v = spelled_slashes_tokens(l);
    assert(u.skip(1) =~= tokens_moved(tokens_moved(l, 28), -26));
    assert(v.skip(7) =~= tokens_moved(l, 28));
    assert(same_from(u, 1, v, 7, -26));
    lemma_axis_names();
    assert(dos_spelled(v, 0));
    law_descendant_abbreviation_at_start(u, 0, v, 0, end + 26, -26);
    if let Ok((steps, p1)) = p_steps(u, 1, end) {
        if let Ok((s1, q1)) = p_step(u, 1, end) {
            if 1 <= q1 <= u.len() {
                lemma_steps_rest_ge(u, q1, end, seq![s1]);
            }
        }
    }
    assert(p_path(u, 0, end) == moved(p_path(v, 0, end + 26), -6, -26));
    lemma_chain_binary(u, v, end + 26, -26, -6, 7, 6);
}

/// `//b` reads as `/descendant-or-self::node()/b`, for any text `b` that
/// does not start with '/': the two parse to the same expression, or fail
/// alike, the longer text's error 26 bytes further on.
#[verifier::spinoff_prover]
#[verifier::rlimit(40)]
pub proof fn law_descendant_abbreviation_before_any_path(b: Seq<char>, end: int)
    requires
        b.len() == 0 || b[0] != '/',
    ensures
        parse_spec("/descendant-or-self::node()/"@ + b, end + 26) == parse_moved(
            parse_spec("//"@ + b, end),
            26,
        ),
{
    lemma_lex_slashes(b);
    lemma_lex_spelled_slashes(b);
    lemma_lex_prev(b, TokenView::SlashSlash, TokenView::Slash);
    let cu = "//"@ + b;
    let cv = "/descendant-or-self::node()/"@ + b;
    match lex_from(b, 0, Some(TokenView::Slash)) {
        Err(err) => {
            assert(error_moved(error_moved(err, 2), 26) == error_moved(err, 28));
        },
        Ok(l) => {
            let u = slashes_tokens(l);
            let v = spelled_slashes_tokens(l);
            assert(lex(cu) == Ok::<Toks, ErrorView>(u));
            let tw = TokenView::Name { prefix: None, local: "descendant-or-self"@ };
            let tn = TokenView::Name { prefix: None, local: "node"@ };
            assert(seq![(TokenView::Slash, 0int)] + (seq![(tw, 1int)] + (seq![
                (TokenView::ColonColon, 19int),
            ] + (seq![(tn, 21int)] + (seq![(TokenView::LParen, 25int)] + (seq![
                (TokenView::RParen, 26int),
            ] + (seq![(TokenView::Slash, 27int)] + tokens_moved(l, 28))))))) =~= v);
            assert(lex(cv) == Ok::<Toks, ErrorView>(v));
            lemma_slashes_parse(l, end);
            if let Ok((x, p)) = p_expr(v, 0, end + 26) {
                if 7 <= p <= v.len() {
                    lemma_same_from_ahead(u, 1, v, 7, -26, p - 7);
                    lemma_same_from_tests(u, p - 6, v, p, end + 26, -26);
                }
            }
        },
    }
}


// ---- `//` between a name step and any relative path -------------------------

/// A `QName` at the start of a text, followed by '/' or nothing, is one
/// name token.
#[verifier::spinoff_prover]
#[verifier::rlimit(40)]
proof fn lemma_scan_first_qname(cs: Seq<char>, prefix: Option<Seq<char>>, local: Seq<char>)
    requires
        qname_ok(prefix, local),
        cs.len() >= qname_text(prefix, local).len(),
        cs.take(qname_text(prefix, local).len() as int) == qname_text(prefix, local),
        cs.len() == qname_text(prefix, local).len() || cs[qname_text(prefix, local).len() as int]
            == '/',
    ensures
        scan(cs, 0, true) == Ok::<(TokenView, int), ErrorView>(
            (TokenView::Name { prefix, local }, qname_text(prefix, local).len() as int),
        ),
        !is_xml_ws(cs[0]),
{
    let x = qname_text(prefix, local);
    let e = x.len() as int;
    assert forall|k: int| 0 <= k < e implies cs[k] == #[trigger] x[k] by {
        assert(cs.take(e)[k] == cs[k]);
    }
    match prefix {
        None => {
            assert(cs[0] == x[0]);
            assert forall|m: int| 0 < m < e implies #[trigger] name_char(cs[m]) by {
                assert(cs[m] == x[m]);
            }
            lemma_scan_word(cs, 0, e, true);
            assert(cs.subrange(0, e) =~= local);
        },
        Some(p) => {
            let e1 = p.len() as int;
            assert(cs[0] == x[0]);
            assert(cs[e1] == x[e1]);
            assert(cs[e1 + 1] == x[e1 + 1]);
            assert(x[e1 + 1] == local[0]);
            assert forall|m: int| 0 < m < e1 implies #[trigger] name_char(cs[m]) by {
                assert(cs[m] == x[m]);
                assert(x[m] == p[m]);
            }
            lemma_name_chars_end(cs, 1, e1);
            assert forall|m: int| e1 + 1 < m < e implies #[trigger] name_char(cs[m]) by {
                assert(cs[m] == x[m]);
                assert(x[m] == local[m - e1 - 1]);
            }
            lemma_name_chars_end(cs, e1 + 2, e);
            lemma_scan_name_start(cs, 0, true);
            assert(cs.subrange(0, e1) =~= p);
            assert forall|k: int| 0 <= k < local.len() implies #[trigger] cs.subrange(e1 + 1, e)[k]
                == local[k] by {
                assert(cs[e1 + 1 + k] == x[e1 + 1 + k]);
            }
            assert(cs.subrange(e1 + 1, e) =~= local);
        },
    }
}

/// A text that starts with '/' is read the same whatever token came before.
proof fn lemma_lex_after_any(w: Seq<char>, prev: Option<TokenView>)
    requires
        w.len() > 0,
        w[0] == '/',
    ensures
        lex_from(w, 0, prev) == lex_from(w, 0, None),
{
    assert(single_char_token('/') is None);
    assert(ws_end(w, 0) == 0);
    assert(scan(w, 0, operand_follows(prev)) == scan(w, 0, true));
}

/// A `QName`, then the text `w` starting with '/': the name token, then the
/// tokens of `w`, moved by the bytes of the name.
#[verifier::spinoff_prover]
proof fn lemma_lex_name_then(x: Seq<char>, w: Seq<char>, prefix: Option<Seq<char>>, local: Seq<char>)
    requires
        qname_ok(prefix, local),
        x == qname_text(prefix, local),
        w.len() > 0,
        w[0] == '/',
    ensures
        lex(x + w) == cons_lexed(
            TokenView::Name { prefix, local },
            0,
            lexed_moved(lex(w), byte_pos(x + w, x.len() as int)),
        ),
{
    let cs = x + w;
    assert(cs.take(x.len() as int) =~= x);
    assert(cs[x.len() as int] == w[0]);
    lemma_scan_first_qname(cs, prefix, local);
    let t = TokenView::Name { prefix, local };
    lemma_lex_step(cs, 0, None, t, x.len() as int);
    assert(cs.skip(x.len() as int) =~= w);
    law_lex_rest(cs, x.len() as int, Some(t));
    lemma_lex_after_any(w, Some(t));
    assert(byte_pos(cs, 0) == 0);
}

/// The tokens of `q//b`, where `q` is one token and `l` are those of `b`,
/// `n` the bytes of `q`.
pub open spec fn name_slashes_tokens(q: TokenView, n: int, l: Toks) -> Toks {
    seq![(q, 0int)] + tokens_moved(slashes_tokens(l), n)
}

/// The tokens of `q/descendant-or-self::node()/b`.
pub open spec fn name_spelled_slashes_tokens(q: TokenView, n: int, l: Toks) -> Toks {
    seq![(q, 0int)] + tokens_moved(spelled_slashes_tokens(l), n)
}

/// The expressions the two token sequences form correspond.
#[verifier::spinoff_prover]
#[verifier::rlimit(60)]
proof fn lemma_name_slashes_parse(
    prefix: Option<Seq<char>>,
    local: Seq<char>,
    n: int,
    l: Toks,
    end: int,
)
    ensures
        same_from(
            name_slashes_tokens(TokenView::Name { prefix, local }, n, l),
            2,
            name_spelled_slashes_tokens(TokenView::Name { prefix, local }, n, l),
            8,
            -26,
        ),
        p_expr(name_slashes_tokens(TokenView::Name { prefix, local }, n, l), 0, end) == moved(
            p_expr(name_spelled_slashes_tokens(TokenView::Name { prefix, local }, n, l), 0, end + 26),
            -6,
            -26,
        ),
        p_expr(name_spelled_slashes_tokens(TokenView::Name { prefix, local }, n, l), 0, end + 26)
            matches Ok((x, q)) ==> q >= 8,
{
    let t = TokenView::Name { prefix, local };
    let u = name_slashes_tokens(t, n, l);
    let v = name_spelled_slashes_tokens(t, n, l);
    assert(u.skip(2) =~= tokens_moved(tokens_moved(l, 28 + n), -26));
    assert(v.skip(8) =~= tokens_moved(l, 28 + n));
    assert(same_from(u, 2, v, 8, -26));
    lemma_axis_names();
    assert(dos_spelled(v, 1));
    let s = name_step(Axis::Child, prefix, local);
    reveal(p_node_test);
    assert(axis_at(u, 0) is None);
    assert(axis_at(v, 0) is None);
    assert(p_step(u, 0, end) == Ok::<(StepView, int), ErrorView>((s, 1)));
    assert(p_step(v, 0, end + 26) == Ok::<(StepView, int), ErrorView>((s, 1)));
    law_descendant_abbreviation_between_steps(u, 1, v, 1, end + 26, -26, seq![s]);
    if let Ok((s2, p2)) = p_step(u, 2, end) {
        if 1 < p2 <= u.len() {
            lemma_steps_rest_ge(u, p2, end, seq![s].push(dos_step()).push(s2));
        }
    }
    assert(p_path(u, 0, end) == moved(p_path(v, 0, end + 26), -6, -26));
    lemma_chain_binary(u, v, end + 26, -26, -6, 8, 6);
}

/// The tokens of `q//b`.
#[verifier::spinoff_prover]
#[verifier::rlimit(40)]
proof fn lemma_lex_name_slashes(prefix: Option<Seq<char>>, local: Seq<char>, b: Seq<char>)
    requires
        qname_ok(prefix, local),
    ensures
        lex(qname_text(prefix, local) + ("//"@ + b)) == match lex_from(
            b,
            0,
            Some(TokenView::Slash),
        ) {
            Ok(l) => Ok(
                name_slashes_tokens(
                    TokenView::Name { prefix, local },
                    byte_pos(qname_text(prefix, local), qname_text(prefix, local).len() as int),
                    l,
                ),
            ),
            Err(e) => Err(
                error_moved(
                    error_moved(e, 2),
                    byte_pos(qname_text(prefix, local), qname_text(prefix, local).len() as int),
                ),
            ),
        },
{
    reveal_strlit("//");
    let x = qname_text(prefix, local);
    let wu = "//"@ + b;
    lemma_lex_name_then(x, wu, prefix, local);
    lemma_byte_pos_prefix(x, wu, Seq::empty());
    assert(x + Seq::<char>::empty() =~= x);
    lemma_lex_slashes(b);
    lemma_lex_prev(b, TokenView::SlashSlash, TokenView::Slash);
}

/// The tokens of `q/descendant-or-self::node()/b`.
#[verifier::spinoff_prover]
#[verifier::rlimit(40)]
proof fn lemma_lex_name_spelled_slashes(prefix: Option<Seq<char>>, local: Seq<char>, b: Seq<char>)
    requires
        qname_ok(prefix, local),
        b.len() == 0 || b[0] != '/',
    ensures
        lex(qname_text(prefix, local) + ("/descendant-or-self::node()/"@ + b)) == match lex_from(
            b,
            0,
            Some(TokenView::Slash),
        ) {
            Ok(l) => Ok(
                name_spelled_slashes_tokens(
                    TokenView::Name { prefix, local },
                    byte_pos(qname_text(prefix, local), qname_text(prefix, local).len() as int),
                    l,
                ),
            ),
            Err(e) => Err(
                error_moved(
                    error_moved(e, 28),
                    byte_pos(qname_text(prefix, local), qname_text(prefix, local).len() as int),
                ),
            ),
        },
{
    reveal_strlit("/descendant-or-self::node()/");
    let x = qname_text(prefix, local);
    let wv = "/descendant-or-self::node()/"@ + b;
    lemma_lex_name_then(x, wv, prefix, local);
    lemma_byte_pos_prefix(x, wv, Seq::empty());
    assert(x + Seq::<char>::empty() =~= x);
    lemma_lex_spelled_slashes(b);
    if let Ok(l) = lex_from(b, 0, Some(TokenView::Slash)) {
        let tw = TokenView::Name { prefix: None, local: "descendant-or-self"@ };
        let tn = TokenView::Name { prefix: None, local: "node"@ };
        assert(seq![(TokenView::Slash, 0int)] + (seq![(tw, 1int)] + (seq![
            (TokenView::ColonColon, 19int),
        ] + (seq![(tn, 21int)] + (seq![(TokenView::LParen, 25int)] + (seq![
            (TokenView::RParen, 26int),
        ] + (seq![(TokenView::Slash, 27int)] + tokens_moved(l, 28))))))) =~= spelled_slashes_tokens(
            l,
        ));
    }
}

/// `q//b` reads as `q/descendant-or-self::node()/b`, for any `QName` `q` and
/// any text `b` that does not start with '/': the two parse to the same
/// expression, or fail alike, the longer text's error 26 bytes further on.
#[verifier::spinoff_prover]
#[verifier::rlimit(40)]
pub proof fn law_descendant_abbreviation_after_name(
    prefix: Option<Seq<char>>,
    local: Seq<char>,
    b: Seq<char>,
    end: int,
)
    requires
        qname_ok(prefix, local),
        b.len() == 0 || b[0] != '/',
    ensures
        parse_spec(qname_text(prefix, local) + ("/descendant-or-self::node()/"@ + b), end + 26)
            == parse_moved(parse_spec(qname_text(prefix, local) + ("//"@ + b), end), 26),
{
    let x = qname_text(prefix, local);
    let t = TokenView::Name { prefix, local };
    let n = byte_pos(x, x.len() as int);
    lemma_lex_name_slashes(prefix, local, b);
    lemma_lex_name_spelled_slashes(prefix, local, b);
    match lex_from(b, 0, Some(TokenView::Slash)) {
        Err(err) => {
            assert(error_moved(error_moved(error_moved(err, 2), n), 26) == error_moved(
                error_moved(err, 28),
                n,
            ));
        },
        Ok(l) => {
            let u = name_slashes_tokens(t, n, l);
            let v = name_spelled_slashes_tokens(t, n, l);
            lemma_name_slashes_parse(prefix, local, n, l, end);
            if let Ok((y, p)) = p_expr(v, 0, end + 26) {
                if 8 <= p <= v.len() {
                    lemma_same_from_ahead(u, 2, v, 8, -26, p - 8);
                    lemma_same_from_tests(u, p - 6, v, p, end + 26, -26);
                }
            }
        },
    }
}

/// The bytes of a prefix do not depend on what follows it.
proof fn lemma_byte_pos_prefix(x: Seq<char>, w1: Seq<char>, w2: Seq<char>)
    ensures
        byte_pos(x + w1, x.len() as int) == byte_pos(x + w2, x.len() as int),
{
    lemma_byte_pos_prefix_at(x, w1, w2, x.len() as int);
}

proof fn lemma_byte_pos_prefix_at(x: Seq<char>, w1: Seq<char>, w2: Seq<char>, k: int)
    requires
        k <= x.len(),
    ensures
        byte_pos(x + w1, k) == byte_pos(x + w2, k),
    decreases k,
{
    if k > 0 {
        lemma_byte_pos_prefix_at(x, w1, w2, k - 1);
        assert((x + w1)[k - 1] == (x + w2)[k - 1]);
    }
}


// ---- `@` before any text ------------------------------------------------------

/// Predicates read at `p` end no earlier.
proof fn lemma_predicates_ge(t: Toks, p: int, end: int, acc: Seq<ExprView>)
    ensures
        p_predicates(t, p, end, acc) matches Ok((x, q)) ==> q >= p,
    decreases t.len() - p,
{
    if tok(t, p) == Some(TokenView::LBracket) {
        if let Ok((e, p1)) = p_expr(t, p + 1, end) {
            if p < p1 <= t.len() {
                if let Ok(p2) = expect(t, p1, end, true) {
                    lemma_predicates_ge(t, p2, end, acc.push(e));
                }
            }
        }
    }
}

/// A step read at `p` ends after it.
proof fn lemma_step_ge(t: Toks, p: int, end: int)
    ensures
        p_step(t, p, end) matches Ok((x, q)) ==> q > p,
{
    reveal(p_node_test);
    if let Ok((nt, p1)) = p_node_test(t, p, end) {
        lemma_predicates_ge(t, p1, end, Seq::empty());
    }
    if let Ok((nt, p1)) = p_node_test(t, p + 1, end) {
        lemma_predicates_ge(t, p1, end, Seq::empty());
    }
    if let Ok((nt, p1)) = p_node_test(t, p + 2, end) {
        lemma_predicates_ge(t, p1, end, Seq::empty());
    }
}

/// The tokens of `@b`.
#[verifier::spinoff_prover]
proof fn lemma_lex_at_sign(rest: Seq<char>)
    ensures
        lex("@"@ + rest) == cons_lexed(
            TokenView::At,
            0,
            lexed_moved(lex_from(rest, 0, Some(TokenView::At)), 1),
        ),
{
    reveal_strlit("@");
    let cu = "@"@ + rest;
    assert(cu.skip(1) =~= rest);
    assert(scan(cu, 0, true) == Ok::<(TokenView, int), ErrorView>((TokenView::At, 1)));
    lemma_lex_step(cu, 0, None, TokenView::At, 1);
    law_lex_rest(cu, 1, Some(TokenView::At));
    lemma_ascii_bytes(cu, 1);
    assert(byte_pos(cu, 0) == 0);
}

/// The tokens of `attribute::b`.
#[verifier::spinoff_prover]
#[verifier::rlimit(40)]
proof fn lemma_lex_attribute_axis(rest: Seq<char>)
    ensures
        lex("attribute::"@ + rest) == cons_lexed(
            TokenView::Name { prefix: None, local: "attribute"@ },
            0,
            cons_lexed(
                TokenView::ColonColon,
                9,
                lexed_moved(lex_from(rest, 0, Some(TokenView::ColonColon)), 11),
            ),
        ),
{
    reveal_strlit("attribute::");
    reveal_strlit("attribute");
    let cv = "attribute::"@ + rest;
    let ta = TokenView::Name { prefix: None, local: "attribute"@ };
    assert(cv.skip(11) =~= rest);
    assert forall|i: int| 0 <= i < 11 implies (#[trigger] cv[i] as int) < 0x80 by {}
    assert forall|m: int| 0 < m < 9 implies #[trigger] name_char(cv[m]) by {}
    lemma_scan_word(cv, 0, 9, true);
    assert(cv.subrange(0, 9) =~= "attribute"@);
    lemma_lex_step(cv, 0, None, ta, 9);
    assert(single_char_token(':') is None);
    assert(scan(cv, 9, false) == Ok::<(TokenView, int), ErrorView>((TokenView::ColonColon, 11)));
    lemma_lex_step(cv, 9, Some(ta), TokenView::ColonColon, 11);
    law_lex_rest(cv, 11, Some(TokenView::ColonColon));
    lemma_ascii_bytes(cv, 9);
    lemma_ascii_bytes(cv, 11);
    assert(byte_pos(cv, 0) == 0);
}

/// The tokens of `@b`, where `l` are those of `b`.
pub open spec fn at_sign_tokens(l: Toks) -> Toks {
    seq![(TokenView::At, 0int)] + tokens_moved(l, 1)
}

/// The tokens of `attribute::b`, where `l` are those of `b`.
pub open spec fn attribute_axis_tokens(l: Toks) -> Toks {
    seq![
        (TokenView::Name { prefix: None, local: "attribute"@ }, 0int),
        (TokenView::ColonColon, 9),
    ] + tokens_moved(l, 11)
}

/// The expressions the two token sequences form correspond.
#[verifier::spinoff_prover]
#[verifier::rlimit(60)]
proof fn lemma_at_sign_parse(l: Toks, end: int)
    ensures
        same_from(at_sign_tokens(l), 1, attribute_axis_tokens(l), 2, -10),
        p_expr(at_sign_tokens(l), 0, end) == moved(
            p_expr(attribute_axis_tokens(l), 0, end + 10),
            -1,
            -10,
        ),
        p_expr(attribute_axis_tokens(l), 0, end + 10) matches Ok((x, q)) ==> q >= 2,
{
    let u = at_sign_tokens(l);
    let v = attribute_axis_tokens(l);
    let e = end + 10;
    assert(u.skip(1) =~= tokens_moved(tokens_moved(l, 11), -10));
    assert(v.skip(2) =~= tokens_moved(l, 11));
    assert(same_from(u, 1, v, 2, -10));
    lemma_axis_names();
    assert(axis_spelled(v, 0, Axis::Attribute));
    law_attribute_abbreviation(u, 0, v, 0, e, -10);
    lemma_step_ge(v, 0, e);
    lemma_same_from_ahead(u, 1, v, 2, -10, 0);
    match p_step(v, 0, e) {
        Err(err) => {},
        Ok((st, p1)) => {
            if p1 <= v.len() {
                assert(p1 >= 2) by {
                    lemma_step_ge(u, 0, end);
                }
                lemma_same_from_ahead(u, 1, v, 2, -10, p1 - 2);
                lemma_moves_steps_rest(u, p1 - 1, v, p1, e, -10, seq![st]);
                lemma_steps_rest_ge(v, p1, e, seq![st]);
            }
        },
    }
    assert(p_steps(u, 0, end) == moved(p_steps(v, 0, e), -1, -10));
    assert(p_path(u, 0, end) == moved(p_path(v, 0, e), -1, -10));
    lemma_chain_binary(u, v, e, -10, -1, 2, 6);
}

/// `@b` reads as `attribute::b`, for any text `b`: the two parse to the
/// same expression, or fail alike, the longer text's error 10 bytes
/// further on.
#[verifier::spinoff_prover]
#[verifier::rlimit(40)]
pub proof fn law_attribute_abbreviation_before_any_text(b: Seq<char>, end: int)
    ensures
        parse_spec("attribute::"@ + b, end + 10) == parse_moved(parse_spec("@"@ + b, end), 10),
{
    lemma_lex_at_sign(b);
    lemma_lex_attribute_axis(b);
    lemma_lex_prev(b, TokenView::At, TokenView::ColonColon);
    match lex_from(b, 0, Some(TokenView::At)) {
        Err(err) => {
            assert(error_moved(error_moved(err, 1), 10) == error_moved(err, 11));
        },
        Ok(l) => {
            let u = at_sign_tokens(l);
            let v = attribute_axis_tokens(l);
            assert(seq![(TokenView::Name { prefix: None, local: "attribute"@ }, 0int)] + (seq![
                (TokenView::ColonColon, 9int),
            ] + tokens_moved(l, 11)) =~= v);
            lemma_at_sign_parse(l, end);
            if let Ok((y, p)) = p_expr(v, 0, end + 10) {
                if 2 <= p <= v.len() {
                    lemma_same_from_ahead(u, 1, v, 2, -10, p - 2);
                    lemma_same_from_tests(u, p - 1, v, p, end + 10, -10);
                }
            }
        },
    }
}

} // verus!
