use xpath_eval::{
    parse, AdditiveOp, Axis, Expr, FilterExpr, FunctionCall, LocationPath, MultiplicativeOp,
    NodeTest, PathExpr, PrimaryExpr, QName, Step,
};

fn qn(local: &str) -> QName {
    QName { prefix: None, local: local.to_string() }
}

fn qn_ns(prefix: &str, local: &str) -> QName {
    QName { prefix: Some(prefix.to_string()), local: local.to_string() }
}

fn name_test(local: &str) -> NodeTest {
    NodeTest::QName(qn(local))
}

fn step(axis: Axis, node_test: NodeTest) -> Step {
    Step { axis, node_test, predicates: Vec::new() }
}

fn rel_path(steps: Vec<Step>) -> Expr {
    Expr::Path(PathExpr::Location(LocationPath { is_absolute: false, steps }))
}

fn abs_path(steps: Vec<Step>) -> Expr {
    Expr::Path(PathExpr::Location(LocationPath { is_absolute: true, steps }))
}

/// A number as written, checked against the value it stands for.
fn num(text: &str, value: f64) -> Expr {
    assert_eq!(text.parse::<f64>().unwrap(), value);
    Expr::Path(PathExpr::Filter(FilterExpr {
        primary: PrimaryExpr::Number(text.to_string()),
        predicates: vec![],
    }))
}

#[test]
fn abbreviated_child_axis_matches_full_child_axis() {
    let abbrev = parse("para").unwrap();
    let full = parse("child::para").unwrap();
    let expected = rel_path(vec![step(Axis::Child, name_test("para"))]);
    assert_eq!(abbrev, expected);
    assert_eq!(full, expected);
}

#[test]
fn abbreviated_attribute_axis_matches_full_attribute_axis() {
    let abbrev = parse("@name").unwrap();
    let full = parse("attribute::name").unwrap();
    let expected = rel_path(vec![step(Axis::Attribute, name_test("name"))]);
    assert_eq!(abbrev, expected);
    assert_eq!(full, expected);
}

#[test]
fn dot_desugars_to_self_axis_node_test() {
    assert_eq!(parse(".").unwrap(), rel_path(vec![step(Axis::SelfAxis, NodeTest::Node)]));
}

#[test]
fn dot_dot_desugars_to_parent_axis_node_test() {
    assert_eq!(parse("..").unwrap(), rel_path(vec![step(Axis::Parent, NodeTest::Node)]));
}

#[test]
fn double_slash_desugars_to_descendant_or_self_node_step() {
    assert_eq!(
        parse("//para").unwrap(),
        abs_path(vec![
            step(Axis::DescendantOrSelf, NodeTest::Node),
            step(Axis::Child, name_test("para")),
        ])
    );
}

#[test]
fn double_slash_mid_path_inserts_descendant_or_self_step() {
    assert_eq!(
        parse("a//b").unwrap(),
        rel_path(vec![
            step(Axis::Child, name_test("a")),
            step(Axis::DescendantOrSelf, NodeTest::Node),
            step(Axis::Child, name_test("b")),
        ])
    );
}

#[test]
fn spec_example_absolute_path_with_predicates() {
    let last_call = Expr::Path(PathExpr::Filter(FilterExpr {
        primary: PrimaryExpr::Function(FunctionCall { name: qn("last"), args: vec![] }),
        predicates: vec![],
    }));
    let one = num("1", 1.0);
    assert_eq!(
        parse("/doc/chapter[1]/para[last()]").unwrap(),
        abs_path(vec![
            step(Axis::Child, name_test("doc")),
            Step { axis: Axis::Child, node_test: name_test("chapter"), predicates: vec![one] },
            Step { axis: Axis::Child, node_test: name_test("para"), predicates: vec![last_call] },
        ])
    );
}

#[test]
fn all_thirteen_axes_parse_to_their_enum_variant() {
    let cases = [
        ("ancestor::a", Axis::Ancestor),
        ("ancestor-or-self::a", Axis::AncestorOrSelf),
        ("attribute::a", Axis::Attribute),
        ("child::a", Axis::Child),
        ("descendant::a", Axis::Descendant),
        ("descendant-or-self::a", Axis::DescendantOrSelf),
        ("following::a", Axis::Following),
        ("following-sibling::a", Axis::FollowingSibling),
        ("namespace::a", Axis::Namespace),
        ("parent::a", Axis::Parent),
        ("preceding::a", Axis::Preceding),
        ("preceding-sibling::a", Axis::PrecedingSibling),
        ("self::a", Axis::SelfAxis),
    ];
    for (src, axis) in cases {
        assert_eq!(
            parse(src).unwrap(),
            rel_path(vec![step(axis, name_test("a"))]),
            "axis expression {src:?}"
        );
    }
}

#[test]
fn node_type_tests() {
    assert_eq!(parse("text()").unwrap(), rel_path(vec![step(Axis::Child, NodeTest::Text)]));
    assert_eq!(parse("comment()").unwrap(), rel_path(vec![step(Axis::Child, NodeTest::Comment)]));
    assert_eq!(parse("node()").unwrap(), rel_path(vec![step(Axis::Child, NodeTest::Node)]));
    assert_eq!(
        parse("processing-instruction()").unwrap(),
        rel_path(vec![step(Axis::Child, NodeTest::ProcessingInstruction(None))])
    );
    assert_eq!(
        parse("processing-instruction('foo')").unwrap(),
        rel_path(vec![step(
            Axis::Child,
            NodeTest::ProcessingInstruction(Some("foo".to_string()))
        )])
    );
}

#[test]
fn chained_predicates() {
    let a = Step {
        axis: Axis::Child,
        node_test: name_test("a"),
        predicates: vec![
            rel_path(vec![step(Axis::Child, name_test("b"))]),
            rel_path(vec![step(Axis::Child, name_test("c"))]),
        ],
    };
    assert_eq!(parse("a[b][c]").unwrap(), rel_path(vec![a]));
}

#[test]
fn nested_predicate() {
    let inner_b = Step {
        axis: Axis::Child,
        node_test: name_test("b"),
        predicates: vec![rel_path(vec![step(Axis::Child, name_test("c"))])],
    };
    let a = Step {
        axis: Axis::Child,
        node_test: name_test("a"),
        predicates: vec![rel_path(vec![inner_b])],
    };
    assert_eq!(parse("a[b[c]]").unwrap(), rel_path(vec![a]));
}

#[test]
fn multiplicative_binds_tighter_than_additive() {
    let expected = Expr::Additive(
        Box::new(num("1", 1.0)),
        AdditiveOp::Add,
        Box::new(Expr::Multiplicative(
            Box::new(num("2", 2.0)),
            MultiplicativeOp::Mul,
            Box::new(num("3", 3.0)),
        )),
    );
    assert_eq!(parse("1 + 2 * 3").unwrap(), expected);
}

#[test]
fn parens_override_precedence() {
    let sum = Expr::Additive(Box::new(num("1", 1.0)), AdditiveOp::Add, Box::new(num("2", 2.0)));
    let grouped = Expr::Path(PathExpr::Filter(FilterExpr {
        primary: PrimaryExpr::Parenthesized(Box::new(sum)),
        predicates: vec![],
    }));
    let expected =
        Expr::Multiplicative(Box::new(grouped), MultiplicativeOp::Mul, Box::new(num("3", 3.0)));
    assert_eq!(parse("(1 + 2) * 3").unwrap(), expected);
}

#[test]
fn subtraction_is_left_associative() {
    let expected = Expr::Additive(
        Box::new(Expr::Additive(
            Box::new(num("1", 1.0)),
            AdditiveOp::Sub,
            Box::new(num("2", 2.0)),
        )),
        AdditiveOp::Sub,
        Box::new(num("3", 3.0)),
    );
    assert_eq!(parse("1 - 2 - 3").unwrap(), expected);
}

#[test]
fn unary_minus() {
    let expected = Expr::Additive(
        Box::new(Expr::Negate(Box::new(num("1", 1.0)))),
        AdditiveOp::Add,
        Box::new(num("2", 2.0)),
    );
    assert_eq!(parse("-1 + 2").unwrap(), expected);
}

#[test]
fn div_mod_and_or_as_operators() {
    assert_eq!(
        parse("1 div 2").unwrap(),
        Expr::Multiplicative(
            Box::new(num("1", 1.0)),
            MultiplicativeOp::Div,
            Box::new(num("2", 2.0))
        )
    );
    assert_eq!(
        parse("1 mod 2").unwrap(),
        Expr::Multiplicative(
            Box::new(num("1", 1.0)),
            MultiplicativeOp::Mod,
            Box::new(num("2", 2.0))
        )
    );
    assert_eq!(
        parse("a and b").unwrap(),
        Expr::And(
            Box::new(rel_path(vec![step(Axis::Child, name_test("a"))])),
            Box::new(rel_path(vec![step(Axis::Child, name_test("b"))])),
        )
    );
    assert_eq!(
        parse("a or b").unwrap(),
        Expr::Or(
            Box::new(rel_path(vec![step(Axis::Child, name_test("a"))])),
            Box::new(rel_path(vec![step(Axis::Child, name_test("b"))])),
        )
    );
}

#[test]
fn div_as_ncname_in_non_operator_position() {
    assert_eq!(parse("child::div").unwrap(), rel_path(vec![step(Axis::Child, name_test("div"))]));
    assert_eq!(
        parse("//div").unwrap(),
        abs_path(vec![
            step(Axis::DescendantOrSelf, NodeTest::Node),
            step(Axis::Child, name_test("div")),
        ])
    );
}

#[test]
fn union_of_three_paths_is_left_associative() {
    let a = rel_path(vec![step(Axis::Child, name_test("a"))]);
    let b = rel_path(vec![step(Axis::Child, name_test("b"))]);
    let c = rel_path(vec![step(Axis::Child, name_test("c"))]);
    let expected = Expr::Union(Box::new(Expr::Union(Box::new(a), Box::new(b))), Box::new(c));
    assert_eq!(parse("a | b | c").unwrap(), expected);
}

#[test]
fn variable_references() {
    assert_eq!(
        parse("$foo").unwrap(),
        Expr::Path(PathExpr::Filter(FilterExpr {
            primary: PrimaryExpr::Variable(qn("foo")),
            predicates: vec![],
        }))
    );
    assert_eq!(
        parse("$ns:foo").unwrap(),
        Expr::Path(PathExpr::Filter(FilterExpr {
            primary: PrimaryExpr::Variable(qn_ns("ns", "foo")),
            predicates: vec![],
        }))
    );
}

#[test]
fn literals_both_quote_styles() {
    let hello = Expr::Path(PathExpr::Filter(FilterExpr {
        primary: PrimaryExpr::Literal("hello".to_string()),
        predicates: vec![],
    }));
    assert_eq!(parse("'hello'").unwrap(), hello);
    assert_eq!(parse("\"hello\"").unwrap(), hello);
}

#[test]
fn numbers() {
    assert_eq!(parse("3").unwrap(), num("3", 3.0));
    assert_eq!(parse("3.14").unwrap(), num("3.14", 3.14));
    assert_eq!(parse(".5").unwrap(), num(".5", 0.5));
}

#[test]
fn namespace_prefixed_name_tests() {
    assert_eq!(
        parse("svg:rect").unwrap(),
        rel_path(vec![step(Axis::Child, NodeTest::QName(qn_ns("svg", "rect")))])
    );
    assert_eq!(parse("*").unwrap(), rel_path(vec![step(Axis::Child, NodeTest::AnyName)]));
    assert_eq!(
        parse("svg:*").unwrap(),
        rel_path(vec![step(Axis::Child, NodeTest::NamespaceWildcard("svg".to_string()))])
    );
}

#[test]
fn function_call_with_multiple_arguments() {
    let call = parse("concat(a, b, c)").unwrap();
    let arg = |n: &str| rel_path(vec![step(Axis::Child, name_test(n))]);
    assert_eq!(
        call,
        Expr::Path(PathExpr::Filter(FilterExpr {
            primary: PrimaryExpr::Function(FunctionCall {
                name: qn("concat"),
                args: vec![arg("a"), arg("b"), arg("c")],
            }),
            predicates: vec![],
        }))
    );
}

#[test]
fn function_call_with_zero_arguments() {
    assert_eq!(
        parse("true()").unwrap(),
        Expr::Path(PathExpr::Filter(FilterExpr {
            primary: PrimaryExpr::Function(FunctionCall { name: qn("true"), args: vec![] }),
            predicates: vec![],
        }))
    );
}

#[test]
fn error_unexpected_end_of_input() {
    let err = parse("1 +").unwrap_err();
    assert_eq!(err.position, 3);
}

#[test]
fn error_unbalanced_parens() {
    let err = parse("(1 + 2").unwrap_err();
    assert_eq!(err.position, 6);
    let err2 = parse("1 + 2)").unwrap_err();
    assert_eq!(err2.position, 5);
}

#[test]
fn error_empty_expression() {
    let err = parse("").unwrap_err();
    assert_eq!(err.position, 0);
    assert_eq!(err.message, "empty expression");
}

// ---- More of the grammar --------------------------------------------------------

#[test]
fn error_messages_name_what_was_expected() {
    let e = parse("1 +").unwrap_err();
    assert_eq!(e.message, "unexpected end of input, expected an expression");
    let e = parse("(1 + 2").unwrap_err();
    assert_eq!(e.message, "unexpected end of input, expected ')'");
    let e = parse("1 + 2)").unwrap_err();
    assert_eq!(e.message, "unexpected trailing input");
    let e = parse("a[1").unwrap_err();
    assert_eq!((e.position, e.message.as_str()), (3, "unexpected end of input, expected ']'"));
    let e = parse("a[1)").unwrap_err();
    assert_eq!((e.position, e.message.as_str()), (3, "expected ']'"));
    let e = parse("child::").unwrap_err();
    assert_eq!((e.position, e.message.as_str()), (7, "unexpected end of input, expected a node test"));
    let e = parse("@1").unwrap_err();
    assert_eq!((e.position, e.message.as_str()), (1, "expected a node test"));
    let e = parse("child::f(1)").unwrap_err();
    assert_eq!((e.position, e.message.as_str()), (7, "function call is not a valid node test"));
    let e = parse("]").unwrap_err();
    assert_eq!((e.position, e.message.as_str()), (0, "expected an expression"));
}

#[test]
fn lexical_errors_carry_the_byte_offset_of_the_token() {
    let e = parse("a ! b").unwrap_err();
    assert_eq!((e.position, e.message.as_str()), (2, "expected '=' after '!'"));
    let e = parse("'abc").unwrap_err();
    assert_eq!((e.position, e.message.as_str()), (0, "unterminated string literal"));
    let e = parse("$ 1").unwrap_err();
    assert_eq!((e.position, e.message.as_str()), (0, "expected a name after '$'"));
    let e = parse("a : b").unwrap_err();
    assert_eq!((e.position, e.message.as_str()), (2, "unexpected character ':'"));
    let e = parse("é # b").unwrap_err();
    assert_eq!((e.position, e.message.as_str()), (3, "unexpected character '#'"));
}

#[test]
fn star_is_a_name_test_or_the_multiplication_operator_by_position() {
    let star = rel_path(vec![step(Axis::Child, NodeTest::AnyName)]);
    assert_eq!(
        parse("* * *").unwrap(),
        Expr::Multiplicative(Box::new(star), MultiplicativeOp::Mul, Box::new(
            rel_path(vec![step(Axis::Child, NodeTest::AnyName)])
        ))
    );
}

#[test]
fn filter_expression_followed_by_a_path() {
    let filter = FilterExpr {
        primary: PrimaryExpr::Variable(qn("x")),
        predicates: vec![num("2", 2.0)],
    };
    assert_eq!(
        parse("$x[2]//b").unwrap(),
        Expr::Path(PathExpr::FilterLocation(
            filter,
            LocationPath {
                is_absolute: false,
                steps: vec![
                    step(Axis::DescendantOrSelf, NodeTest::Node),
                    step(Axis::Child, name_test("b")),
                ],
            }
        ))
    );
}

#[test]
fn lone_slash_is_the_root_path() {
    assert_eq!(parse("/").unwrap(), abs_path(vec![]));
    assert_eq!(
        parse("/ | a").unwrap(),
        Expr::Union(
            Box::new(abs_path(vec![])),
            Box::new(rel_path(vec![step(Axis::Child, name_test("a"))]))
        )
    );
}

#[test]
fn comparisons_and_their_precedence() {
    let a = || rel_path(vec![step(Axis::Child, name_test("a"))]);
    let got = parse("a = 1 or a != 2 and a <= 3").unwrap();
    let expected = Expr::Or(
        Box::new(Expr::Equality(Box::new(a()), xpath_eval::EqualityOp::Eq, Box::new(num("1", 1.0)))),
        Box::new(Expr::And(
            Box::new(Expr::Equality(
                Box::new(a()),
                xpath_eval::EqualityOp::Ne,
                Box::new(num("2", 2.0)),
            )),
            Box::new(Expr::Relational(
                Box::new(a()),
                xpath_eval::RelationalOp::Le,
                Box::new(num("3", 3.0)),
            )),
        )),
    );
    assert_eq!(got, expected);
}

#[test]
fn abbreviations_read_as_their_full_forms_in_context() {
    let pairs = [
        ("a/@b[1]", "a/attribute::b[1]"),
        ("a/b[@c = 2]/d", "a/child::b[attribute::c = 2]/child::d"),
        ("a/./b", "a/self::node()/b"),
        ("a/../b", "a/parent::node()/b"),
        ("a//b[c]//d", "a/descendant-or-self::node()/b[c]/descendant-or-self::node()/d"),
        ("//a | //b", "/descendant-or-self::node()/a | /descendant-or-self::node()/b"),
        ("$x[1]//a", "$x[1]/descendant-or-self::node()/a"),
        ("count(//a) + 1", "count(/descendant-or-self::node()/a) + 1"),
        ("svg:rect", "child::svg:rect"),
        ("div", "child::div"),
        ("@xml:lang", "attribute::xml:lang"),
        ("//svg:rect", "/descendant-or-self::node()/svg:rect"),
        (".", "self::node()"),
        ("..", "parent::node()"),
    ];
    for (short, full) in pairs.iter() {
        assert_eq!(parse(short).unwrap(), parse(full).unwrap(), "{} vs {}", short, full);
    }
}

#[test]
fn double_slash_and_its_full_form_fail_alike() {
    for rest in ["", "a[", "a/)", "1 +", "a | ]", "x !y", "'open"] {
        let short = format!("//{}", rest);
        let full = format!("/descendant-or-self::node()/{}", rest);
        match (parse(&short), parse(&full)) {
            (Ok(a), Ok(b)) => assert_eq!(a, b, "{}", rest),
            (Err(a), Err(b)) => {
                assert_eq!(a.message, b.message, "{}", rest);
                assert_eq!(a.position + 26, b.position, "{}", rest);
            }
            (a, b) => panic!("{}: {:?} vs {:?}", rest, a, b),
        }
    }
    assert_eq!(
        parse("//a[b]//c | d").unwrap(),
        parse("/descendant-or-self::node()/a[b]//c | d").unwrap()
    );
}

#[test]
fn name_then_double_slash_and_its_full_form_fail_alike() {
    for name in ["a", "svg:rect", "div"] {
        for rest in ["b", "b[c]//d | e", "", "b[", "* div 2", "'open"] {
            let short = format!("{}//{}", name, rest);
            let full = format!("{}/descendant-or-self::node()/{}", name, rest);
            match (parse(&short), parse(&full)) {
                (Ok(a), Ok(b)) => assert_eq!(a, b, "{}", short),
                (Err(a), Err(b)) => {
                    assert_eq!(a.message, b.message, "{}", short);
                    assert_eq!(a.position + 26, b.position, "{}", short);
                }
                (a, b) => panic!("{}: {:?} vs {:?}", short, a, b),
            }
        }
    }
}

#[test]
fn at_sign_and_attribute_axis_fail_alike() {
    for rest in ["id", "svg:rect[1]/b", "*", "", "1", "x[", " id | y", "'open"] {
        let short = format!("@{}", rest);
        let full = format!("attribute::{}", rest);
        match (parse(&short), parse(&full)) {
            (Ok(a), Ok(b)) => assert_eq!(a, b, "{}", short),
            (Err(a), Err(b)) => {
                assert_eq!(a.message, b.message, "{}", short);
                assert_eq!(a.position + 10, b.position, "{}", short);
            }
            (a, b) => panic!("{}: {:?} vs {:?}", short, a, b),
        }
    }
}
