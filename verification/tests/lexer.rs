use xpath_eval::lexer::{tokenize, Token};

fn offsets(input: &str) -> Vec<usize> {
    tokenize(input).unwrap().iter().map(|(_, p)| *p).collect()
}

#[test]
fn tokens_carry_increasing_byte_offsets() {
    assert_eq!(offsets("a  +  é/b"), vec![0, 3, 6, 8, 9]);
    assert_eq!(offsets(" \t\n"), Vec::<usize>::new());
    let got = offsets("//x[@y != 'z'] | $v");
    assert!(got.windows(2).all(|w| w[0] < w[1]));
}

#[test]
fn star_and_operator_names_follow_the_preceding_token() {
    let tokens = tokenize("* * div div").unwrap();
    assert!(matches!(tokens[0].0, Token::Wildcard));
    assert!(matches!(tokens[1].0, Token::Star));
    assert!(matches!(&tokens[2].0, Token::Name { prefix: None, local } if local == "div"));
    assert!(matches!(tokens[3].0, Token::Div));
    let tokens = tokenize("(and)").unwrap();
    assert!(matches!(&tokens[1].0, Token::Name { local, .. } if local == "and"));
}

#[test]
fn names_numbers_literals_and_variables() {
    let tokens = tokenize("p:x p:* 12.5 .5 'it''s' $q:v ..").unwrap();
    assert!(matches!(&tokens[0].0, Token::Name { prefix: Some(p), local } if p == "p" && local == "x"));
    assert!(matches!(&tokens[1].0, Token::NsWildcard(p) if p == "p"));
    assert!(matches!(&tokens[2].0, Token::Number(n) if n == "12.5"));
    assert!(matches!(&tokens[3].0, Token::Number(n) if n == ".5"));
    assert!(matches!(&tokens[4].0, Token::Literal(s) if s == "it"));
    assert!(matches!(&tokens[5].0, Token::Literal(s) if s == "s"));
    assert!(matches!(&tokens[6].0, Token::Variable(q) if q.prefix.as_deref() == Some("q") && q.local == "v"));
    assert!(matches!(tokens[7].0, Token::DotDot));
    assert_eq!(tokens.len(), 8);
}

#[test]
fn lexical_errors() {
    let e = tokenize("a !").unwrap_err();
    assert_eq!((e.position, e.message.as_str()), (2, "expected '=' after '!'"));
    let e = tokenize("\"open").unwrap_err();
    assert_eq!((e.position, e.message.as_str()), (0, "unterminated string literal"));
    let e = tokenize("x ~").unwrap_err();
    assert_eq!((e.position, e.message.as_str()), (2, "unexpected character '~'"));
}

#[test]
fn names_run_over_letters_digits_and_name_punctuation() {
    let tokens = tokenize("x1-y.z_2 é9").unwrap();
    assert_eq!(tokens.len(), 2);
    assert!(matches!(&tokens[0].0, Token::Name { prefix: None, local } if local == "x1-y.z_2"));
    assert!(matches!(&tokens[1].0, Token::Name { prefix: None, local } if local == "é9"));
    let e = tokenize("1x").map(|t| t.len()).unwrap();
    assert_eq!(e, 2);
}
