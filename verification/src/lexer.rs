//! Tokenizer for XPath 1.0 expressions (§3.7, Lexical Structure).
//!
//! Of the section's disambiguation rules, the first is applied here: when
//! there is a preceding token and it is not one of `@`, `::`, `(`, `[`, `,`
//! or an operator, `*` is the multiplication operator and a name spelling
//! `and`, `or`, `mod` or `div` is an operator name. The other two (a name
//! before `(` is a node type or function name, one before `::` an axis
//! name) need the next token and are applied by the parser.
use vstd::prelude::*;
use crate::ast::{QName, QNameView};
use crate::ast::str_eq;
use crate::chars::{chars_of, copy_range, string_of};
use crate::functions::{first_index, is_digit, is_xml_whitespace, is_xml_ws, lemma_first_index};
use crate::parser::{error_at, ErrorView, ParseError};

verus! {

/// An expression token.
#[derive(Debug)]
pub enum Token {
    LParen,
    RParen,
    LBracket,
    RBracket,
    Dot,
    DotDot,
    At,
    Comma,
    ColonColon,
    Slash,
    SlashSlash,
    Pipe,
    Plus,
    Minus,
    Eq,
    Ne,
    Lt,
    Le,
    Gt,
    Ge,
    /// `*` as the multiplication operator.
    Star,
    /// `*` as the name test that matches any name.
    Wildcard,
    And,
    Or,
    Mod,
    Div,
    /// An `NCName` or `prefix:local`; the parser decides from the next
    /// token whether it is a name test, a function name, a node type or an
    /// axis name.
    Name { prefix: Option<String>, local: String },
    /// `prefix:*`.
    NsWildcard(String),
    Variable(QName),
    Literal(String),
    /// A `Number`, as written.
    Number(String),
}

/// A token as plain values.
pub ghost enum TokenView {
    LParen,
    RParen,
    LBracket,
    RBracket,
    Dot,
    DotDot,
    At,
    Comma,
    ColonColon,
    Slash,
    SlashSlash,
    Pipe,
    Plus,
    Minus,
    Eq,
    Ne,
    Lt,
    Le,
    Gt,
    Ge,
    Star,
    Wildcard,
    And,
    Or,
    Mod,
    Div,
    Name { prefix: Option<Seq<char>>, local: Seq<char> },
    NsWildcard(Seq<char>),
    Variable(QNameView),
    Literal(Seq<char>),
    Number(Seq<char>),
}

impl View for Token {
    type V = TokenView;

    open spec fn view(&self) -> TokenView {
        match self {
            Token::LParen => TokenView::LParen,
            Token::RParen => TokenView::RParen,
            Token::LBracket => TokenView::LBracket,
            Token::RBracket => TokenView::RBracket,
            Token::Dot => TokenView::Dot,
            Token::DotDot => TokenView::DotDot,
            Token::At => TokenView::At,
            Token::Comma => TokenView::Comma,
            Token::ColonColon => TokenView::ColonColon,
            Token::Slash => TokenView::Slash,
            Token::SlashSlash => TokenView::SlashSlash,
            Token::Pipe => TokenView::Pipe,
            Token::Plus => TokenView::Plus,
            Token::Minus => TokenView::Minus,
            Token::Eq => TokenView::Eq,
            Token::Ne => TokenView::Ne,
            Token::Lt => TokenView::Lt,
            Token::Le => TokenView::Le,
            Token::Gt => TokenView::Gt,
            Token::Ge => TokenView::Ge,
            Token::Star => TokenView::Star,
            Token::Wildcard => TokenView::Wildcard,
            Token::And => TokenView::And,
            Token::Or => TokenView::Or,
            Token::Mod => TokenView::Mod,
            Token::Div => TokenView::Div,
            Token::Name { prefix, local } => TokenView::Name {
                prefix: crate::document::opt_chars(*prefix),
                local: local@,
            },
            Token::NsWildcard(p) => TokenView::NsWildcard(p@),
            Token::Variable(q) => TokenView::Variable(q@),
            Token::Literal(s) => TokenView::Literal(s@),
            Token::Number(s) => TokenView::Number(s@),
        }
    }
}

// ---- Characters -------------------------------------------------------

/// What `char::is_alphabetic` answers for a character.
pub uninterp spec fn alphabetic(c: char) -> bool;

/// What `char::is_alphanumeric` answers for a character.
pub uninterp spec fn alphanumeric(c: char) -> bool;

/// An ASCII letter.
pub open spec fn ascii_letter(c: char) -> bool {
    ('a' <= c && c <= 'z') || ('A' <= c && c <= 'Z')
}

/// An ASCII character.
pub open spec fn is_ascii(c: char) -> bool {
    (c as int) < 128
}

/// `char::is_alphabetic`: whether the character has Unicode's `Alphabetic`
/// property. Of the ASCII characters, exactly the letters have it (Unicode's
/// DerivedCoreProperties); beyond ASCII it is stated only as the name
/// `alphabetic`, since the property is a table of the Unicode standard.
#[verifier::external_body]
fn is_alphabetic(c: char) -> (r: bool)
    ensures
        r == alphabetic(c),
        is_ascii(c) ==> (r == ascii_letter(c)),
{
    c.is_alphabetic()
}

/// `char::is_alphanumeric`: whether the character is alphabetic or
/// numeric in Unicode's sense. Of the ASCII characters, exactly the letters
/// and the digits are; beyond ASCII it is stated only as the name
/// `alphanumeric`.
#[verifier::external_body]
fn is_alphanumeric(c: char) -> (r: bool)
    ensures
        r == alphanumeric(c),
        is_ascii(c) ==> (r == (ascii_letter(c) || ('0' <= c && c <= '9'))),
{
    c.is_alphanumeric()
}

/// A letter: an ASCII letter, or beyond ASCII a character with Unicode's
/// `Alphabetic` property.
pub open spec fn letter(c: char) -> bool {
    if is_ascii(c) {
        ascii_letter(c)
    } else {
        alphabetic(c)
    }
}

/// A letter or a digit: among ASCII characters the letters and digits,
/// beyond ASCII those Unicode calls alphabetic or numeric.
pub open spec fn letter_or_digit(c: char) -> bool {
    if is_ascii(c) {
        ascii_letter(c) || ('0' <= c && c <= '9')
    } else {
        alphanumeric(c)
    }
}

/// A character that may begin a name.
pub open spec fn name_start(c: char) -> bool {
    letter(c) || c == '_'
}

/// A character that may continue a name.
pub open spec fn name_char(c: char) -> bool {
    letter_or_digit(c) || c == '_' || c == '-' || c == '.'
}

fn is_name_start_char(c: char) -> (r: bool)
    ensures
        r == name_start(c),
{
    is_alphabetic(c) || c == '_'
}

fn is_name_char(c: char) -> (r: bool)
    ensures
        r == name_char(c),
{
    is_alphanumeric(c) || c == '_' || c == '-' || c == '.'
}

/// The character at index `i`, if there is one.
pub open spec fn char_at(cs: Seq<char>, i: int) -> Option<char> {
    if 0 <= i < cs.len() {
        Some(cs[i])
    } else {
        None
    }
}

/// The number of bytes UTF-8 takes for a character.
pub open spec fn utf8_len(c: char) -> int {
    if (c as int) < 0x80 {
        1
    } else if (c as int) < 0x800 {
        2
    } else if (c as int) < 0x10000 {
        3
    } else {
        4
    }
}

/// The byte offset of the character at index `i` in the UTF-8 encoding.
pub open spec fn byte_pos(cs: Seq<char>, i: int) -> int
    decreases i,
{
    if i <= 0 {
        0
    } else {
        byte_pos(cs, i - 1) + utf8_len(cs[i - 1])
    }
}

/// `str::char_indices`, collected: each character of the string with the
/// byte offset at which it starts.
#[verifier::external_body]
fn char_indices(s: &str) -> (r: Vec<(usize, char)>)
    ensures
        r@.len() == s@.len(),
        forall|i: int| 0 <= i < s@.len() ==> (#[trigger] r@[i]).1 == s@[i] && r@[i].0 == byte_pos(s@, i),
{
    s.char_indices().collect()
}

/// `offs` holds the byte offset of each character of `cs`.
pub open spec fn offsets_of(cs: Seq<char>, offs: Seq<usize>) -> bool {
    offs.len() == cs.len() && forall|i: int| 0 <= i < cs.len() ==> #[trigger] offs[i] == byte_pos(cs, i)
}

/// The characters of a string and the byte offset of each.
fn chars_and_offsets(s: &str) -> (r: (Vec<char>, Vec<usize>))
    ensures
        r.0@ == s@,
        offsets_of(r.0@, r.1@),
{
    let pairs = char_indices(s);
    let mut cs: Vec<char> = Vec::new();
    let mut offs: Vec<usize> = Vec::new();
    let mut i: usize = 0;
    while i < pairs.len()
        invariant
            pairs@.len() == s@.len(),
            forall|k: int|
                0 <= k < s@.len() ==> (#[trigger] pairs@[k]).1 == s@[k] && pairs@[k].0 == byte_pos(
                    s@,
                    k,
                ),
            i <= pairs@.len(),
            cs@ == s@.subrange(0, i as int),
            offs@.len() == i,
            forall|k: int| 0 <= k < i ==> #[trigger] offs@[k] == byte_pos(s@, k),
        decreases pairs.len() - i,
    {
        let (b, c) = pairs[i];
        cs.push(c);
        offs.push(b);
        i += 1;
    }
    assert(cs@ =~= s@);
    (cs, offs)
}

// ---- Runs of characters -----------------------------------------------

/// The first index at or after `i` that does not hold XML whitespace.
pub open spec fn ws_end(cs: Seq<char>, i: int) -> int
    decreases cs.len() - i,
{
    if 0 <= i < cs.len() && is_xml_ws(cs[i]) {
        ws_end(cs, i + 1)
    } else {
        i
    }
}

/// The first index at or after `i` that does not hold an ASCII digit.
pub open spec fn digits_end(cs: Seq<char>, i: int) -> int
    decreases cs.len() - i,
{
    if 0 <= i < cs.len() && is_digit(cs[i]) {
        digits_end(cs, i + 1)
    } else {
        i
    }
}

/// The first index at or after `i` that does not hold a name character.
pub open spec fn name_chars_end(cs: Seq<char>, i: int) -> int
    decreases cs.len() - i,
{
    if 0 <= i < cs.len() && name_char(cs[i]) {
        name_chars_end(cs, i + 1)
    } else {
        i
    }
}

/// The end of the `NCName` that starts at `i` (whose first character the
/// caller has checked).
pub open spec fn ncname_end(cs: Seq<char>, i: int) -> int {
    name_chars_end(cs, i + 1)
}

pub proof fn lemma_runs(cs: Seq<char>, i: int)
    requires
        0 <= i <= cs.len(),
    ensures
        i <= ws_end(cs, i) <= cs.len(),
        i <= digits_end(cs, i) <= cs.len(),
        i <= name_chars_end(cs, i) <= cs.len(),
    decreases cs.len() - i,
{
    if i < cs.len() {
        lemma_runs(cs, i + 1);
    }
}

// ---- Scanning one token -----------------------------------------------

/// Rule 1's condition: no token precedes, or the preceding one is `@`,
/// `::`, `(`, `[`, `,` or an operator, so that an operand comes next.
pub open spec fn operand_follows(prev: Option<TokenView>) -> bool {
    match prev {
        None => true,
        Some(t) => match t {
            TokenView::At | TokenView::ColonColon | TokenView::LParen | TokenView::LBracket
            | TokenView::Comma | TokenView::Slash | TokenView::SlashSlash | TokenView::Pipe
            | TokenView::Plus | TokenView::Minus | TokenView::Eq | TokenView::Ne | TokenView::Lt
            | TokenView::Le | TokenView::Gt | TokenView::Ge | TokenView::Star | TokenView::And
            | TokenView::Or | TokenView::Mod | TokenView::Div => true,
            _ => false,
        },
    }
}

/// A scanned token and the index just past it, or an error.
pub type Scanned = Result<(TokenView, int), ErrorView>;

/// `NCName (':' NCName)?` at `i`, whose first character is a name start:
/// prefix, local part, and the index past it.
pub open spec fn qname_at(cs: Seq<char>, i: int) -> (Option<Seq<char>>, Seq<char>, int) {
    let e1 = ncname_end(cs, i);
    if char_at(cs, e1) == Some(':') && char_at(cs, e1 + 1) != Some(':') && e1 + 1 < cs.len()
        && name_start(cs[e1 + 1]) {
        let e2 = ncname_end(cs, e1 + 1);
        (Some(cs.subrange(i, e1)), cs.subrange(e1 + 1, e2), e2)
    } else {
        (None, cs.subrange(i, e1), e1)
    }
}

/// A bare name: one of the operator names where an operator is due
/// (rule 1), a name otherwise.
pub open spec fn name_or_operator(text: Seq<char>, operand: bool) -> TokenView {
    if !operand && text == "and"@ {
        TokenView::And
    } else if !operand && text == "or"@ {
        TokenView::Or
    } else if !operand && text == "mod"@ {
        TokenView::Mod
    } else if !operand && text == "div"@ {
        TokenView::Div
    } else {
        TokenView::Name { prefix: None, local: text }
    }
}

/// The name token at `j`: `prefix:local`, `prefix:*`, or a bare name.
pub open spec fn scan_name(cs: Seq<char>, j: int, operand: bool) -> (TokenView, int) {
    let e1 = ncname_end(cs, j);
    let first = cs.subrange(j, e1);
    if char_at(cs, e1) == Some(':') && char_at(cs, e1 + 1) != Some(':') && e1 + 1 < cs.len()
        && name_start(cs[e1 + 1]) {
        let e2 = ncname_end(cs, e1 + 1);
        (TokenView::Name { prefix: Some(first), local: cs.subrange(e1 + 1, e2) }, e2)
    } else if char_at(cs, e1) == Some(':') && char_at(cs, e1 + 1) == Some('*') {
        (TokenView::NsWildcard(first), e1 + 2)
    } else {
        (name_or_operator(first, operand), e1)
    }
}

/// The number at `j`: `Digits ('.' Digits?)?` or `'.' Digits`.
pub open spec fn scan_number(cs: Seq<char>, j: int) -> (TokenView, int) {
    let a = digits_end(cs, j);
    let b = if char_at(cs, a) == Some('.') {
        digits_end(cs, a + 1)
    } else {
        a
    };
    (TokenView::Number(cs.subrange(j, b)), b)
}

/// The literal opening at `j`: everything up to the next occurrence of its
/// quote character.
pub open spec fn scan_literal(cs: Seq<char>, j: int) -> Scanned {
    match first_index(cs.skip(j + 1), cs[j]) {
        Some(k) => Ok((TokenView::Literal(cs.subrange(j + 1, j + 1 + k)), j + 2 + k)),
        None => Err(error_at(byte_pos(cs, j), "unterminated string literal"@)),
    }
}

/// The one-character tokens.
pub open spec fn single_char_token(c: char) -> Option<TokenView> {
    if c == '(' {
        Some(TokenView::LParen)
    } else if c == ')' {
        Some(TokenView::RParen)
    } else if c == '[' {
        Some(TokenView::LBracket)
    } else if c == ']' {
        Some(TokenView::RBracket)
    } else if c == ',' {
        Some(TokenView::Comma)
    } else if c == '@' {
        Some(TokenView::At)
    } else if c == '|' {
        Some(TokenView::Pipe)
    } else if c == '+' {
        Some(TokenView::Plus)
    } else if c == '-' {
        Some(TokenView::Minus)
    } else if c == '=' {
        Some(TokenView::Eq)
    } else {
        None
    }
}

/// The token that starts at index `j` (which holds a character), when an
/// operand is or is not due; errors are positioned at the token's byte
/// offset.
pub open spec fn scan(cs: Seq<char>, j: int, operand: bool) -> Scanned {
    let c = cs[j];
    let at = byte_pos(cs, j);
    let next = char_at(cs, j + 1);
    if single_char_token(c) is Some {
        Ok((single_char_token(c).unwrap(), j + 1))
    } else if c == '!' {
        if next == Some('=') {
            Ok((TokenView::Ne, j + 2))
        } else {
            Err(error_at(at, "expected '=' after '!'"@))
        }
    } else if c == '<' {
        if next == Some('=') {
            Ok((TokenView::Le, j + 2))
        } else {
            Ok((TokenView::Lt, j + 1))
        }
    } else if c == '>' {
        if next == Some('=') {
            Ok((TokenView::Ge, j + 2))
        } else {
            Ok((TokenView::Gt, j + 1))
        }
    } else if c == '/' {
        if next == Some('/') {
            Ok((TokenView::SlashSlash, j + 2))
        } else {
            Ok((TokenView::Slash, j + 1))
        }
    } else if c == ':' {
        if next == Some(':') {
            Ok((TokenView::ColonColon, j + 2))
        } else {
            Err(error_at(at, "unexpected character ':'"@))
        }
    } else if c == '*' {
        Ok((
            if operand {
                TokenView::Wildcard
            } else {
                TokenView::Star
            },
            j + 1,
        ))
    } else if c == '\'' || c == '"' {
        scan_literal(cs, j)
    } else if c == '$' {
        if j + 1 < cs.len() && name_start(cs[j + 1]) {
            let (p, l, e) = qname_at(cs, j + 1);
            Ok((TokenView::Variable(QNameView { prefix: p, local: l }), e))
        } else {
            Err(error_at(at, "expected a name after '$'"@))
        }
    } else if c == '.' {
        if j + 1 < cs.len() && is_digit(cs[j + 1]) {
            Ok(scan_number(cs, j))
        } else if next == Some('.') {
            Ok((TokenView::DotDot, j + 2))
        } else {
            Ok((TokenView::Dot, j + 1))
        }
    } else if is_digit(c) {
        Ok(scan_number(cs, j))
    } else if name_start(c) {
        Ok(scan_name(cs, j, operand))
    } else {
        Err(error_at(at, "unexpected character '"@ + seq![c, '\'']))
    }
}

pub proof fn lemma_scan_progress(cs: Seq<char>, j: int, operand: bool)
    requires
        0 <= j < cs.len(),
    ensures
        scan(cs, j, operand) matches Ok((t, k)) ==> j < k <= cs.len(),
{
    lemma_runs(cs, j + 1);
    lemma_runs(cs, j);
    let e1 = ncname_end(cs, j);
    if e1 + 1 <= cs.len() {
        lemma_runs(cs, e1 + 1);
    }
    if e1 + 2 <= cs.len() {
        lemma_runs(cs, e1 + 2);
    }
    let a = digits_end(cs, j);
    if a + 1 <= cs.len() {
        lemma_runs(cs, a + 1);
    }
    if j + 2 <= cs.len() {
        lemma_runs(cs, j + 2);
        let e = ncname_end(cs, j + 1);
        if e + 1 <= cs.len() {
            lemma_runs(cs, e + 1);
        }
        if e + 2 <= cs.len() {
            lemma_runs(cs, e + 2);
        }
    }
    if cs[j] == '\'' || cs[j] == '"' {
        let rest = cs.skip(j + 1);
        lemma_first_index_bound(rest, cs[j]);
    }
}

pub proof fn lemma_first_index_bound(s: Seq<char>, c: char)
    ensures
        first_index(s, c) matches Some(k) ==> 0 <= k < s.len() && s[k] == c,
    decreases s.len(),
{
    if s.len() > 0 && s[0] != c {
        lemma_first_index_bound(s.drop_first(), c);
    }
}

/// The tokens of `cs` from index `i` on, each with its byte offset, after
/// the token `prev`; or the first error.
pub open spec fn lex_from(cs: Seq<char>, i: int, prev: Option<TokenView>) -> Result<
    Seq<(TokenView, int)>,
    ErrorView,
>
    decreases cs.len() - i,
{
    let j = ws_end(cs, i);
    if i < 0 || j >= cs.len() {
        Ok(Seq::empty())
    } else {
        proof {
            lemma_runs(cs, i);
            lemma_scan_progress(cs, j, operand_follows(prev));
        }
        match scan(cs, j, operand_follows(prev)) {
            Err(e) => Err(e),
            Ok((t, k)) => match lex_from(cs, k, Some(t)) {
                Ok(rest) => Ok(seq![(t, byte_pos(cs, j))] + rest),
                Err(e) => Err(e),
            },
        }
    }
}

/// The tokens of an expression, each with its byte offset.
pub open spec fn lex(cs: Seq<char>) -> Result<Seq<(TokenView, int)>, ErrorView> {
    lex_from(cs, 0, None)
}

// ---- Where tokens and errors are -----------------------------------------

/// `x` is the byte offset of a character of `cs` at index `i` or later.
pub open spec fn char_offset_from(cs: Seq<char>, i: int, x: int) -> bool {
    exists|c: int| i <= c < cs.len() && #[trigger] byte_pos(cs, c) == x
}

/// Later characters start at greater byte offsets.
pub proof fn lemma_byte_pos_increases(cs: Seq<char>, a: int, b: int)
    requires
        0 <= a < b <= cs.len(),
    ensures
        byte_pos(cs, a) < byte_pos(cs, b),
    decreases b - a,
{
    if b - 1 > a {
        lemma_byte_pos_increases(cs, a, b - 1);
    }
}

/// A token's errors are at its own offset.
proof fn lemma_scan_error_at(cs: Seq<char>, j: int, operand: bool)
    requires
        0 <= j < cs.len(),
    ensures
        scan(cs, j, operand) matches Err(e) ==> e.position == byte_pos(cs, j),
{
}

proof fn lemma_lex_from_positions(cs: Seq<char>, i: int, prev: Option<TokenView>)
    requires
        0 <= i,
    ensures
        lex_from(cs, i, prev) matches Err(e) ==> char_offset_from(cs, i, e.position),
        lex_from(cs, i, prev) matches Ok(ts) ==> {
            &&& forall|k: int| 0 <= k < ts.len() ==> char_offset_from(cs, i, #[trigger] ts[k].1)
            &&& forall|k: int, m: int| 0 <= k < m < ts.len() ==> #[trigger] ts[k].1 < #[trigger] ts[m].1
        },
    decreases cs.len() - i,
{
    let j = ws_end(cs, i);
    if j < cs.len() {
        lemma_runs(cs, i);
        let op = operand_follows(prev);
        lemma_scan_progress(cs, j, op);
        lemma_scan_error_at(cs, j, op);
        match scan(cs, j, op) {
            Err(e) => {
                assert(byte_pos(cs, j) == e.position);
            },
            Ok((t, k)) => {
                lemma_lex_from_positions(cs, k, Some(t));
                match lex_from(cs, k, Some(t)) {
                    Err(e) => {
                        let c = choose|c: int| k <= c < cs.len() && #[trigger] byte_pos(cs, c)
                            == e.position;
                        assert(i <= c);
                    },
                    Ok(rest) => {
                        let ts = seq![(t, byte_pos(cs, j))] + rest;
                        assert(lex_from(cs, i, prev) == Ok::<Seq<(TokenView, int)>, ErrorView>(ts));
                        assert forall|x: int| 0 <= x < ts.len() implies char_offset_from(
                            cs,
                            i,
                            #[trigger] ts[x].1,
                        ) by {
                            if x == 0 {
                                assert(byte_pos(cs, j) == ts[0].1);
                            } else {
                                assert(ts[x] == rest[x - 1]);
                                assert(char_offset_from(cs, k, rest[x - 1].1));
                                let c = choose|c: int| k <= c < cs.len() && #[trigger] byte_pos(
                                    cs,
                                    c,
                                ) == rest[x - 1].1;
                                assert(byte_pos(cs, c) == ts[x].1);
                            }
                        }
                        assert forall|x: int, y: int|
                            0 <= x < y < ts.len() implies #[trigger] ts[x].1 < #[trigger] ts[y].1 by {
                            assert(ts[y] == rest[y - 1]);
                            if x == 0 {
                                assert(char_offset_from(cs, k, rest[y - 1].1));
                                let c = choose|c: int| k <= c < cs.len() && #[trigger] byte_pos(
                                    cs,
                                    c,
                                ) == rest[y - 1].1;
                                lemma_byte_pos_increases(cs, j, c);
                            } else {
                                assert(ts[x] == rest[x - 1]);
                                assert(rest[x - 1].1 < rest[y - 1].1);
                            }
                        }
                    },
                }
            },
        }
    }
}

/// Every token starts at the byte offset of a character of the
/// expression, the tokens in increasing order of offsets, and a lexical
/// error points at the character where its token starts.
pub proof fn law_token_offsets(cs: Seq<char>)
    ensures
        lex(cs) matches Err(e) ==> char_offset_from(cs, 0, e.position),
        lex(cs) matches Ok(ts) ==> {
            &&& forall|k: int| 0 <= k < ts.len() ==> char_offset_from(cs, 0, #[trigger] ts[k].1)
            &&& forall|k: int, m: int| 0 <= k < m < ts.len() ==> #[trigger] ts[k].1 < #[trigger] ts[m].1
        },
{
    lemma_lex_from_positions(cs, 0, None);
}

// ---- The scanner ------------------------------------------------------

/// The index past the XML whitespace at `i`.
fn skip_whitespace(cs: &Vec<char>, i: usize) -> (r: usize)
    requires
        i <= cs@.len(),
    ensures
        r == ws_end(cs@, i as int),
{
    let mut k: usize = i;
    while k < cs.len() && is_xml_whitespace(cs[k])
        invariant
            i <= k <= cs@.len(),
            ws_end(cs@, i as int) == ws_end(cs@, k as int),
        decreases cs.len() - k,
    {
        k += 1;
    }
    k
}

/// The index past the ASCII digits at `i`.
fn skip_digits(cs: &Vec<char>, i: usize) -> (r: usize)
    requires
        i <= cs@.len(),
    ensures
        r == digits_end(cs@, i as int),
{
    let mut k: usize = i;
    while k < cs.len() && '0' <= cs[k] && cs[k] <= '9'
        invariant
            i <= k <= cs@.len(),
            digits_end(cs@, i as int) == digits_end(cs@, k as int),
        decreases cs.len() - k,
    {
        k += 1;
    }
    k
}

/// The characters `from..to` as a string.
fn text(cs: &Vec<char>, from: usize, to: usize) -> (r: String)
    requires
        from <= to <= cs@.len(),
    ensures
        r@ == cs@.subrange(from as int, to as int),
{
    let part = copy_range(cs, from, to);
    string_of(&part)
}

/// The `NCName` at `i`, whose first character is a name start, and the
/// index past it.
fn read_ncname(cs: &Vec<char>, i: usize) -> (r: (String, usize))
    requires
        i < cs@.len(),
        name_start(cs@[i as int]),
    ensures
        r.1 == ncname_end(cs@, i as int),
        r.0@ == cs@.subrange(i as int, r.1 as int),
{
    let n: usize = cs.len();
    let mut k: usize = i + 1;
    while k < n && is_name_char(cs[k])
        invariant
            i < k <= cs@.len(),
            n == cs@.len(),
            name_chars_end(cs@, i + 1) == name_chars_end(cs@, k as int),
        decreases cs.len() - k,
    {
        k += 1;
    }
    (text(cs, i, k), k)
}

/// `NCName (':' NCName)?` at `i` (see `qname_at`).
fn read_qname_raw(cs: &Vec<char>, i: usize) -> (r: (Option<String>, String, usize))
    requires
        i < cs@.len(),
        name_start(cs@[i as int]),
    ensures
        (crate::document::opt_chars(r.0), r.1@, r.2 as int) == qname_at(cs@, i as int),
{
    let (first, e1) = read_ncname(cs, i);
    proof {
        lemma_runs(cs@, i + 1);
    }
    if e1 < cs.len() && cs[e1] == ':' && e1 + 1 < cs.len() && cs[e1 + 1] != ':'
        && is_name_start_char(cs[e1 + 1]) {
        let (second, e2) = read_ncname(cs, e1 + 1);
        return (Some(first), second, e2);
    }
    (None, first, e1)
}

/// A bare name, or the operator name it spells where an operator is due.
fn name_or_operator_token(text: String, operand: bool) -> (r: Token)
    ensures
        r@ == name_or_operator(text@, operand),
{
    if !operand {
        if str_eq(text.as_str(), "and") {
            return Token::And;
        } else if str_eq(text.as_str(), "or") {
            return Token::Or;
        } else if str_eq(text.as_str(), "mod") {
            return Token::Mod;
        } else if str_eq(text.as_str(), "div") {
            return Token::Div;
        }
    }
    Token::Name { prefix: None, local: text }
}

/// The name token at `j` (see `scan_name`).
fn read_name(cs: &Vec<char>, j: usize, operand: bool) -> (r: (Token, usize))
    requires
        j < cs@.len(),
        name_start(cs@[j as int]),
    ensures
        (r.0@, r.1 as int) == scan_name(cs@, j as int, operand),
{
    let (first, e1) = read_ncname(cs, j);
    proof {
        lemma_runs(cs@, j + 1);
    }
    if e1 < cs.len() && cs[e1] == ':' && e1 + 1 < cs.len() && cs[e1 + 1] != ':' {
        if is_name_start_char(cs[e1 + 1]) {
            let (second, e2) = read_ncname(cs, e1 + 1);
            return (Token::Name { prefix: Some(first), local: second }, e2);
        }
        if cs[e1 + 1] == '*' {
            return (Token::NsWildcard(first), e1 + 2);
        }
    }
    (name_or_operator_token(first, operand), e1)
}

/// The number at `j` (see `scan_number`).
fn read_number(cs: &Vec<char>, j: usize) -> (r: (Token, usize))
    requires
        j < cs@.len(),
    ensures
        (r.0@, r.1 as int) == scan_number(cs@, j as int),
{
    let a = skip_digits(cs, j);
    proof {
        lemma_runs(cs@, j as int);
    }
    let b = if a < cs.len() && cs[a] == '.' {
        skip_digits(cs, a + 1)
    } else {
        a
    };
    proof {
        if a < cs@.len() {
            lemma_runs(cs@, a + 1);
        }
    }
    (Token::Number(text(cs, j, b)), b)
}

/// The literal opening at `j` (see `scan_literal`).
fn read_literal(cs: &Vec<char>, offs: &Vec<usize>, j: usize) -> (r: Result<(Token, usize), ParseError>)
    requires
        j < cs@.len(),
        offsets_of(cs@, offs@),
    ensures
        match r {
            Ok((t, k)) => scan_literal(cs@, j as int) == Ok::<(TokenView, int), ErrorView>(
                (t@, k as int),
            ),
            Err(e) => scan_literal(cs@, j as int) == Err::<(TokenView, int), ErrorView>(e@),
        },
{
    let n: usize = cs.len();
    let quote = cs[j];
    let mut k: usize = j + 1;
    while k < n && cs[k] != quote
        invariant
            j < k <= cs@.len(),
            n == cs@.len(),
            quote == cs@[j as int],
            forall|m: int| j < m < k ==> cs@[m] != quote,
        decreases cs.len() - k,
    {
        k += 1;
    }
    proof {
        let rest = cs@.skip(j + 1);
        assert forall|m: int| 0 <= m < k - (j + 1) implies rest[m] != quote by {
            assert(rest[m] == cs@[j + 1 + m]);
        }
        if k < cs@.len() {
            assert(rest[k - (j + 1)] == cs@[k as int]);
        }
        lemma_first_index(rest, quote, k - (j + 1));
    }
    if k == cs.len() {
        return Err(ParseError::new(offs[j], "unterminated string literal"));
    }
    Ok((Token::Literal(text(cs, j + 1, k)), k + 1))
}

/// Rule 1: whether an operand is due after the token `last` (`None` at the
/// start of the expression).
fn expects_operand(last: Option<&Token>) -> (r: bool)
    ensures
        r == operand_follows(
            match last {
                Some(t) => Some(t@),
                None => None,
            },
        ),
{
    match last {
        None => true,
        Some(t) => match t {
            Token::At | Token::ColonColon | Token::LParen | Token::LBracket | Token::Comma
            | Token::Slash | Token::SlashSlash | Token::Pipe | Token::Plus | Token::Minus
            | Token::Eq | Token::Ne | Token::Lt | Token::Le | Token::Gt | Token::Ge | Token::Star
            | Token::And | Token::Or | Token::Mod | Token::Div => true,
            _ => false,
        },
    }
}

/// The "unexpected character" message for `c`.
fn unexpected_character(c: char) -> (r: String)
    ensures
        r@ == "unexpected character '"@ + seq![c, '\''],
{
    let mut m = chars_of("unexpected character '");
    m.push(c);
    m.push('\'');
    string_of(&m)
}

/// The token at index `j` (see `scan`).
fn next_token(cs: &Vec<char>, offs: &Vec<usize>, j: usize, operand: bool) -> (r: Result<
    (Token, usize),
    ParseError,
>)
    requires
        j < cs@.len(),
        offsets_of(cs@, offs@),
    ensures
        match r {
            Ok((t, k)) => scan(cs@, j as int, operand) == Ok::<(TokenView, int), ErrorView>(
                (t@, k as int),
            ),
            Err(e) => scan(cs@, j as int, operand) == Err::<(TokenView, int), ErrorView>(e@),
        },
{
    let n: usize = cs.len();
    let c = cs[j];
    let next: Option<char> = if j + 1 < n {
        Some(cs[j + 1])
    } else {
        None
    };
    assert(next == char_at(cs@, j + 1));
    let at = offs[j];
    let single = if c == '(' {
        Some(Token::LParen)
    } else if c == ')' {
        Some(Token::RParen)
    } else if c == '[' {
        Some(Token::LBracket)
    } else if c == ']' {
        Some(Token::RBracket)
    } else if c == ',' {
        Some(Token::Comma)
    } else if c == '@' {
        Some(Token::At)
    } else if c == '|' {
        Some(Token::Pipe)
    } else if c == '+' {
        Some(Token::Plus)
    } else if c == '-' {
        Some(Token::Minus)
    } else if c == '=' {
        Some(Token::Eq)
    } else {
        None
    };
    if let Some(t) = single {
        return Ok((t, j + 1));
    }
    if c == '!' {
        if next == Some('=') {
            Ok((Token::Ne, j + 2))
        } else {
            Err(ParseError::new(at, "expected '=' after '!'"))
        }
    } else if c == '<' {
        if next == Some('=') {
            Ok((Token::Le, j + 2))
        } else {
            Ok((Token::Lt, j + 1))
        }
    } else if c == '>' {
        if next == Some('=') {
            Ok((Token::Ge, j + 2))
        } else {
            Ok((Token::Gt, j + 1))
        }
    } else if c == '/' {
        if next == Some('/') {
            Ok((Token::SlashSlash, j + 2))
        } else {
            Ok((Token::Slash, j + 1))
        }
    } else if c == ':' {
        if next == Some(':') {
            Ok((Token::ColonColon, j + 2))
        } else {
            Err(ParseError::new(at, "unexpected character ':'"))
        }
    } else if c == '*' {
        if operand {
            Ok((Token::Wildcard, j + 1))
        } else {
            Ok((Token::Star, j + 1))
        }
    } else if c == '\'' || c == '"' {
        read_literal(cs, offs, j)
    } else if c == '$' {
        if j + 1 < cs.len() && is_name_start_char(cs[j + 1]) {
            let (prefix, local, e) = read_qname_raw(cs, j + 1);
            Ok((Token::Variable(QName { prefix, local }), e))
        } else {
            Err(ParseError::new(at, "expected a name after '$'"))
        }
    } else if c == '.' {
        if j + 1 < cs.len() && '0' <= cs[j + 1] && cs[j + 1] <= '9' {
            Ok(read_number(cs, j))
        } else if next == Some('.') {
            Ok((Token::DotDot, j + 2))
        } else {
            Ok((Token::Dot, j + 1))
        }
    } else if '0' <= c && c <= '9' {
        Ok(read_number(cs, j))
    } else if is_name_start_char(c) {
        Ok(read_name(cs, j, operand))
    } else {
        Err(ParseError { position: at, message: unexpected_character(c) })
    }
}

/// The tokens with their byte offsets, as plain values.
pub open spec fn tokens_view(ts: Seq<(Token, usize)>) -> Seq<(TokenView, int)> {
    ts.map_values(|p: (Token, usize)| (p.0@, p.1 as int))
}

/// `done` followed by what `rest` yields, or the error of `rest`.
pub open spec fn followed_by(
    done: Seq<(TokenView, int)>,
    rest: Result<Seq<(TokenView, int)>, ErrorView>,
) -> Result<Seq<(TokenView, int)>, ErrorView> {
    match rest {
        Ok(r) => Ok(done + r),
        Err(e) => Err(e),
    }
}

/// Splits an expression into tokens, each with the byte offset at which it
/// starts (see `lex`); the first lexical error stops it.
pub fn tokenize(input: &str) -> (r: Result<Vec<(Token, usize)>, ParseError>)
    ensures
        match r {
            Ok(ts) => lex(input@) == Ok::<Seq<(TokenView, int)>, ErrorView>(tokens_view(ts@)),
            Err(e) => lex(input@) == Err::<Seq<(TokenView, int)>, ErrorView>(e@),
        },
{
    let (cs, offs) = chars_and_offsets(input);
    let mut tokens: Vec<(Token, usize)> = Vec::new();
    let mut i: usize = 0;
    let mut operand: bool = true;
    let ghost mut prev: Option<TokenView> = None;
    while i < cs.len()
        invariant
            cs@ == input@,
            offsets_of(cs@, offs@),
            i <= cs@.len(),
            operand == operand_follows(prev),
            lex(input@) == followed_by(tokens_view(tokens@), lex_from(cs@, i as int, prev)),
        decreases cs.len() - i,
    {
        let j = skip_whitespace(&cs, i);
        proof {
            lemma_runs(cs@, i as int);
        }
        if j >= cs.len() {
            i = j;
        } else {
            proof {
                lemma_scan_progress(cs@, j as int, operand);
            }
            match next_token(&cs, &offs, j, operand) {
                Err(e) => {
                    return Err(e);
                },
                Ok((t, k)) => {
                    let ghost tv = t@;
                    operand = expects_operand(Some(&t));
                    let ghost before = tokens_view(tokens@);
                    tokens.push((t, offs[j]));
                    proof {
                        assert(tokens_view(tokens@) =~= before + seq![(tv, byte_pos(cs@, j as int))]);
                        prev = Some(tv);
                        match lex_from(cs@, k as int, prev) {
                            Ok(r) => {
                                assert(before + (seq![(tv, byte_pos(cs@, j as int))] + r) =~= (before
                                    + seq![(tv, byte_pos(cs@, j as int))]) + r);
                            },
                            Err(_) => {},
                        }
                    }
                    i = k;
                },
            }
        }
    }
    proof {
        assert(ws_end(cs@, i as int) == i);
        assert(lex_from(cs@, i as int, prev) == Ok::<Seq<(TokenView, int)>, ErrorView>(
            Seq::empty(),
        ));
        assert(tokens_view(tokens@) + Seq::empty() =~= tokens_view(tokens@));
    }
    Ok(tokens)
}

} // verus!
