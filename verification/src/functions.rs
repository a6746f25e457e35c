//! The string-level core of the XPath 1.0 core function library (§4):
//! whitespace and tokens, `normalize-space()`, `translate()`, the substring
//! searches, `lang()`, `name()`, `id()`, and the `Number` syntax that
//! `number()` accepts.
use vstd::prelude::*;
use crate::ast::{str_eq, Axis};
use crate::axes::{descendant_or_self, descendant_or_self_axis, namespace, namespace_axis};
use crate::chars::{append_chars, chars_of, copy_range, string_of};
use crate::document::{
    lemma_own_nodes, node_ok, opt_chars, Document, ExpandedName, NameView, NodeKind, NodeView,
};
use crate::ast::{QName, QNameView};
use crate::eval::{
    check_arity, check_arity_range, check_min_arity, in_document_order, law_document_order_members,
    lemma_axis_in_range, sort_dedup, EvalError,
};

verus! {

// ---- Whitespace and tokens --------------------------------------------

/// XML's `S` production: space, tab, carriage return, line feed.
pub open spec fn is_xml_ws(c: char) -> bool {
    c == ' ' || c == '\t' || c == '\r' || c == '\n'
}

/// XML's `S` production (space, tab, CR, LF), narrower than Unicode
/// whitespace.
pub fn is_xml_whitespace(c: char) -> (r: bool)
    ensures
        r == is_xml_ws(c),
{
    c == ' ' || c == '\t' || c == '\r' || c == '\n'
}

/// The length of the run of non-whitespace characters `s` starts with.
pub open spec fn word_len(s: Seq<char>) -> nat
    decreases s.len(),
{
    if s.len() == 0 || is_xml_ws(s[0]) {
        0
    } else {
        1 + word_len(s.drop_first())
    }
}

pub proof fn lemma_word_len(s: Seq<char>)
    ensures
        word_len(s) <= s.len(),
        s.len() > 0 && !is_xml_ws(s[0]) ==> word_len(s) >= 1,
        forall|k: int| 0 <= k < word_len(s) ==> !is_xml_ws(#[trigger] s[k]),
        word_len(s) < s.len() ==> is_xml_ws(s[word_len(s) as int]),
    decreases s.len(),
{
    if s.len() > 0 && !is_xml_ws(s[0]) {
        lemma_word_len(s.drop_first());
        assert forall|k: int| 0 <= k < word_len(s) implies !is_xml_ws(#[trigger] s[k]) by {
            if k > 0 {
                assert(s[k] == s.drop_first()[k - 1]);
            }
        }
    }
}

/// The whitespace-separated tokens of `s` (maximal runs of characters other
/// than XML whitespace), in order.
pub open spec fn ws_tokens(s: Seq<char>) -> Seq<Seq<char>>
    decreases s.len(),
{
    if s.len() == 0 {
        Seq::empty()
    } else if is_xml_ws(s[0]) {
        ws_tokens(s.drop_first())
    } else {
        let w = word_len(s);
        proof {
            lemma_word_len(s);
        }
        seq![s.take(w as int)] + ws_tokens(s.skip(w as int))
    }
}

/// Strings as characters.
pub open spec fn strings_view(v: Seq<String>) -> Seq<Seq<char>> {
    v.map_values(|t: String| t@)
}

/// `id()`'s whitespace-separated list of tokens (XML `S` separators).
pub fn whitespace_tokens(s: &str) -> (r: Vec<String>)
    ensures
        strings_view(r@) == ws_tokens(s@),
{
    let cs = chars_of(s);
    let mut out: Vec<String> = Vec::new();
    let mut i: usize = 0;
    proof {
        assert(cs@.skip(0) =~= cs@);
    }
    while i < cs.len()
        invariant
            i <= cs@.len(),
            strings_view(out@) + ws_tokens(cs@.skip(i as int)) == ws_tokens(cs@),
        decreases cs.len() - i,
    {
        let ghost rest = cs@.skip(i as int);
        if is_xml_whitespace(cs[i]) {
            proof {
                assert(rest.drop_first() =~= cs@.skip(i + 1));
            }
            i += 1;
        } else {
            let mut j: usize = i;
            while j < cs.len() && !is_xml_whitespace(cs[j])
                invariant
                    i <= j <= cs@.len(),
                    rest == cs@.skip(i as int),
                    word_len(rest) == (j - i) + word_len(cs@.skip(j as int)),
                decreases cs.len() - j,
            {
                proof {
                    assert(cs@.skip(j as int).drop_first() =~= cs@.skip(j + 1));
                }
                j += 1;
            }
            let word = copy_range(&cs, i, j);
            let t = string_of(&word);
            proof {
                lemma_word_len(rest);
                assert(word_len(rest) == j - i);
                assert(rest.take((j - i) as int) =~= word@);
                assert(rest.skip((j - i) as int) =~= cs@.skip(j as int));
                assert(strings_view(out@.push(t)) =~= strings_view(out@) + seq![word@]);
            }
            out.push(t);
            i = j;
        }
    }
    proof {
        assert(cs@.skip(i as int) =~= Seq::<char>::empty());
        assert(strings_view(out@) + Seq::<Seq<char>>::empty() =~= strings_view(out@));
    }
    out
}

/// Tokens joined by single spaces.
pub open spec fn join_words(ts: Seq<Seq<char>>) -> Seq<char>
    decreases ts.len(),
{
    if ts.len() == 0 {
        Seq::empty()
    } else if ts.len() == 1 {
        ts[0]
    } else {
        join_words(ts.drop_last()) + seq![' '] + ts.last()
    }
}

/// `normalize-space()`: "the argument string with whitespace normalized by
/// stripping leading and trailing whitespace and replacing sequences of
/// whitespace characters by a single space".
pub fn normalize_space(s: &str) -> (r: String)
    ensures
        r@ == join_words(ws_tokens(s@)),
{
    let tokens = whitespace_tokens(s);
    let mut out: Vec<char> = Vec::new();
    let mut i: usize = 0;
    while i < tokens.len()
        invariant
            i <= tokens@.len(),
            strings_view(tokens@) == ws_tokens(s@),
            out@ == join_words(strings_view(tokens@).take(i as int)),
        decreases tokens.len() - i,
    {
        let ghost ts = strings_view(tokens@);
        proof {
            assert(ts.take(i + 1).drop_last() =~= ts.take(i as int));
        }
        if i > 0 {
            out.push(' ');
        }
        let w = chars_of(tokens[i].as_str());
        append_chars(&mut out, &w);
        i += 1;
    }
    proof {
        assert(strings_view(tokens@).take(tokens@.len() as int) =~= strings_view(tokens@));
    }
    string_of(&out)
}

// ---- translate() ------------------------------------------------------

/// The index of the first occurrence of `c` in `s`, if any.
pub open spec fn first_index(s: Seq<char>, c: char) -> Option<int>
    decreases s.len(),
{
    if s.len() == 0 {
        None
    } else if s[0] == c {
        Some(0)
    } else {
        match first_index(s.drop_first(), c) {
            Some(i) => Some(i + 1),
            None => None,
        }
    }
}

pub proof fn lemma_first_index(s: Seq<char>, c: char, i: int)
    requires
        0 <= i <= s.len(),
        forall|k: int| 0 <= k < i ==> s[k] != c,
    ensures
        i < s.len() && s[i] == c ==> first_index(s, c) == Some(i),
        i == s.len() ==> first_index(s, c) is None,
    decreases i,
{
    if i > 0 {
        lemma_first_index(s.drop_first(), c, i - 1);
    }
}

/// What `translate()` makes of one character: the character at the same
/// position in `to` as its first occurrence in `from`, nothing if `to` is
/// too short, the character itself if it is not in `from`.
pub open spec fn translate_char(c: char, from: Seq<char>, to: Seq<char>) -> Seq<char> {
    match first_index(from, c) {
        Some(i) => if i < to.len() {
            seq![to[i]]
        } else {
            Seq::empty()
        },
        None => seq![c],
    }
}

/// `translate(s, from, to)`, character by character.
pub open spec fn translated(s: Seq<char>, from: Seq<char>, to: Seq<char>) -> Seq<char>
    decreases s.len(),
{
    if s.len() == 0 {
        Seq::empty()
    } else {
        translated(s.drop_last(), from, to) + translate_char(s.last(), from, to)
    }
}

/// §4.2 `translate()`: "If a character occurs more than once in the second
/// argument string, then the first occurrence determines the replacement
/// character. If the first argument string contains a character not in the
/// second argument string, then it is not translated." A character of the
/// second argument with no counterpart in the third is deleted.
pub fn xpath_translate(s: &str, from: &str, to: &str) -> (r: String)
    ensures
        r@ == translated(s@, from@, to@),
{
    let sc = chars_of(s);
    let fc = chars_of(from);
    let tc = chars_of(to);
    let mut out: Vec<char> = Vec::new();
    let mut i: usize = 0;
    while i < sc.len()
        invariant
            i <= sc@.len(),
            sc@ == s@,
            fc@ == from@,
            tc@ == to@,
            out@ == translated(sc@.take(i as int), fc@, tc@),
        decreases sc.len() - i,
    {
        let c = sc[i];
        proof {
            assert(sc@.take(i + 1).drop_last() =~= sc@.take(i as int));
        }
        let mut k: usize = 0;
        while k < fc.len() && fc[k] != c
            invariant
                k <= fc@.len(),
                forall|m: int| 0 <= m < k ==> fc@[m] != c,
            decreases fc.len() - k,
        {
            k += 1;
        }
        proof {
            lemma_first_index(fc@, c, k as int);
        }
        if k < fc.len() {
            if k < tc.len() {
                out.push(tc[k]);
            }
        } else {
            out.push(c);
        }
        proof {
            assert(out@ =~= translated(sc@.take(i + 1), fc@, tc@));
        }
        i += 1;
    }
    proof {
        assert(sc@.take(sc@.len() as int) =~= sc@);
    }
    string_of(&out)
}

// ---- Substring searches -----------------------------------------------

/// `b` occurs in `a` at position `i`.
pub open spec fn occurs_at(a: Seq<char>, b: Seq<char>, i: int) -> bool {
    0 <= i && i + b.len() <= a.len() && a.subrange(i, i + b.len()) == b
}

/// The first position at or after `i` where `b` occurs in `a`, if any.
pub open spec fn first_occurrence_from(a: Seq<char>, b: Seq<char>, i: int) -> Option<int>
    decreases a.len() + 1 - i,
{
    if i < 0 || i + b.len() > a.len() {
        None
    } else if occurs_at(a, b, i) {
        Some(i)
    } else {
        first_occurrence_from(a, b, i + 1)
    }
}

/// The first position where `b` occurs in `a`, if any.
pub open spec fn first_occurrence(a: Seq<char>, b: Seq<char>) -> Option<int> {
    first_occurrence_from(a, b, 0)
}

proof fn lemma_first_occurrence_from(a: Seq<char>, b: Seq<char>, i: int)
    requires
        0 <= i,
    ensures
        first_occurrence_from(a, b, i) matches Some(k) ==> i <= k && occurs_at(a, b, k),
    decreases a.len() + 1 - i,
{
    if i + b.len() <= a.len() && !occurs_at(a, b, i) {
        lemma_first_occurrence_from(a, b, i + 1);
    }
}

/// Whether `b` occurs at position `i` of `a`.
fn matches_at(a: &Vec<char>, b: &Vec<char>, i: usize) -> (r: bool)
    requires
        i + b@.len() <= a@.len(),
    ensures
        r == occurs_at(a@, b@, i as int),
{
    let mut k: usize = 0;
    while k < b.len()
        invariant
            k <= b@.len(),
            i + b.len() <= a.len(),
            forall|m: int| 0 <= m < k ==> a@[i + m] == b@[m],
        decreases b.len() - k,
    {
        if a[i + k] != b[k] {
            proof {
                assert(a@.subrange(i as int, i + b@.len())[k as int] != b@[k as int]);
            }
            return false;
        }
        k += 1;
    }
    assert(a@.subrange(i as int, i + b@.len()) =~= b@);
    true
}

/// The first position where `b` occurs in `a`, if any.
fn find_chars(a: &Vec<char>, b: &Vec<char>) -> (r: Option<usize>)
    ensures
        match r {
            Some(k) => first_occurrence(a@, b@) == Some(k as int) && occurs_at(a@, b@, k as int),
            None => first_occurrence(a@, b@) is None,
        },
{
    if b.len() > a.len() {
        return None;
    }
    let last: usize = a.len() - b.len();
    let mut i: usize = 0;
    while i <= last
        invariant
            last + b@.len() == a@.len(),
            i <= last,
            first_occurrence(a@, b@) == first_occurrence_from(a@, b@, i as int),
        decreases last - i,
    {
        if matches_at(a, b, i) {
            return Some(i);
        }
        if i == last {
            assert(first_occurrence_from(a@, b@, i + 1) is None);
            return None;
        }
        i += 1;
    }
    None
}

/// `starts-with()`: whether `a` starts with `b`.
pub fn starts_with(a: &str, b: &str) -> (r: bool)
    ensures
        r == (b@.len() <= a@.len() && a@.take(b@.len() as int) == b@),
{
    let ac = chars_of(a);
    let bc = chars_of(b);
    if bc.len() > ac.len() {
        return false;
    }
    let r = matches_at(&ac, &bc, 0);
    proof {
        assert(ac@.subrange(0, bc@.len() as int) =~= ac@.take(bc@.len() as int));
    }
    r
}

/// `contains()`: whether `b` occurs in `a`.
pub fn contains(a: &str, b: &str) -> (r: bool)
    ensures
        r == first_occurrence(a@, b@) is Some,
{
    let ac = chars_of(a);
    let bc = chars_of(b);
    find_chars(&ac, &bc).is_some()
}

/// `substring-before()`: the part of `a` before the first occurrence of
/// `b`, or the empty string if `b` does not occur in `a`.
pub fn substring_before(a: &str, b: &str) -> (r: String)
    ensures
        r@ == (match first_occurrence(a@, b@) {
            Some(k) => a@.take(k),
            None => Seq::empty(),
        }),
{
    let ac = chars_of(a);
    let bc = chars_of(b);
    match find_chars(&ac, &bc) {
        Some(k) => {
            let part = copy_range(&ac, 0, k);
            assert(part@ =~= a@.take(k as int));
            string_of(&part)
        },
        None => String::new(),
    }
}

/// `substring-after()`: the part of `a` after the first occurrence of
/// `b`, or the empty string if `b` does not occur in `a`.
pub fn substring_after(a: &str, b: &str) -> (r: String)
    ensures
        r@ == (match first_occurrence(a@, b@) {
            Some(k) => a@.skip(k + b@.len()),
            None => Seq::empty(),
        }),
{
    let ac = chars_of(a);
    let bc = chars_of(b);
    match find_chars(&ac, &bc) {
        Some(k) => {
            let n: usize = ac.len();
            let part = copy_range(&ac, k + bc.len(), n);
            assert(part@ =~= a@.skip(k + b@.len()));
            string_of(&part)
        },
        None => String::new(),
    }
}

/// `string-length()`: the number of characters.
pub fn string_length(s: &str) -> (r: usize)
    ensures
        r == s@.len(),
{
    chars_of(s).len()
}

// ---- The Number syntax ------------------------------------------------

pub open spec fn is_digit(c: char) -> bool {
    '0' <= c <= '9'
}

/// The number of leading XML whitespace characters.
pub open spec fn leading_ws(s: Seq<char>) -> nat
    decreases s.len(),
{
    if s.len() == 0 || !is_xml_ws(s[0]) {
        0
    } else {
        1 + leading_ws(s.drop_first())
    }
}

/// The number of trailing XML whitespace characters.
pub open spec fn trailing_ws(s: Seq<char>) -> nat
    decreases s.len(),
{
    if s.len() == 0 || !is_xml_ws(s.last()) {
        0
    } else {
        1 + trailing_ws(s.drop_last())
    }
}

/// `s` without leading and trailing XML whitespace.
pub open spec fn trim_ws(s: Seq<char>) -> Seq<char> {
    let t = s.skip(leading_ws(s) as int);
    t.take(t.len() - trailing_ws(t))
}

/// Production `Number ::= Digits ('.' Digits?)? | '.' Digits`: digits with
/// at most one '.', and at least one digit.
pub open spec fn is_number_syntax(t: Seq<char>) -> bool {
    &&& forall|k: int| 0 <= k < t.len() ==> is_digit(#[trigger] t[k]) || t[k] == '.'
    &&& forall|k: int, m: int| 0 <= k < m < t.len() && #[trigger] t[k] == '.' ==> #[trigger] t[m] != '.'
    &&& exists|k: int| 0 <= k < t.len() && is_digit(#[trigger] t[k])
}

/// §4.4's string-to-number syntax: optional whitespace, an optional minus
/// sign, a `Number`, optional whitespace. The text of the signed number, or
/// `None` where the string converts to NaN.
pub open spec fn number_text(s: Seq<char>) -> Option<Seq<char>> {
    let t = trim_ws(s);
    if t.len() > 0 && t[0] == '-' {
        if is_number_syntax(t.drop_first()) {
            Some(t)
        } else {
            None
        }
    } else if is_number_syntax(t) {
        Some(t)
    } else {
        None
    }
}

/// The text of the number a string converts to (§4.4): the string without
/// surrounding XML whitespace, when what remains is an optional minus sign
/// followed by a `Number`; `None` for any other string, which converts to NaN.
pub fn xpath_number_text(s: &str) -> (r: Option<String>)
    ensures
        match r {
            Some(t) => number_text(s@) == Some(t@),
            None => number_text(s@) is None,
        },
{
    let cs = chars_of(s);
    let n: usize = cs.len();
    let mut a: usize = 0;
    assert(cs@.skip(0) =~= cs@);
    while a < n && is_xml_whitespace(cs[a])
        invariant
            a <= n == cs@.len(),
            leading_ws(cs@) == a + leading_ws(cs@.skip(a as int)),
        decreases n - a,
    {
        proof {
            assert(cs@.skip(a as int).drop_first() =~= cs@.skip(a + 1));
        }
        a += 1;
    }
    let ghost t0 = cs@.skip(a as int);
    proof {
        assert(cs@.skip(0) =~= cs@);
    }
    let mut b: usize = n;
    while b > a && is_xml_whitespace(cs[b - 1])
        invariant
            a <= b <= n == cs@.len(),
            t0 == cs@.skip(a as int),
            trailing_ws(t0) == (n - b) + trailing_ws(cs@.subrange(a as int, b as int)),
        decreases b - a,
    {
        proof {
            assert(cs@.subrange(a as int, b as int).drop_last() =~= cs@.subrange(
                a as int,
                b - 1,
            ));
        }
        b -= 1;
    }
    proof {
        assert(leading_ws(cs@) == a);
        assert(cs@.subrange(a as int, n as int) =~= t0);
        assert(trailing_ws(t0) == n - b);
        assert(trim_ws(cs@) =~= cs@.subrange(a as int, b as int));
    }
    let ghost t = cs@.subrange(a as int, b as int);
    let start: usize = if a < b && cs[a] == '-' {
        a + 1
    } else {
        a
    };
    let ghost body = cs@.subrange(start as int, b as int);
    proof {
        if start == a + 1 {
            assert(t.drop_first() =~= body);
        } else {
            assert(t =~= body);
        }
        assert(number_text(s@) == if is_number_syntax(body) {
            Some(t)
        } else {
            None
        });
    }
    let mut k: usize = start;
    let mut dot_at: usize = b;
    let mut digits: bool = false;
    while k < b
        invariant
            start <= k <= b <= n == cs@.len(),
            body == cs@.subrange(start as int, b as int),
            number_text(s@) == if is_number_syntax(body) {
                Some(t)
            } else {
                None
            },
            dot_at == b || (start <= dot_at < k && cs@[dot_at as int] == '.'),
            forall|m: int| start <= m < k ==> is_digit(#[trigger] cs@[m]) || cs@[m] == '.',
            forall|m: int| start <= m < k && m != dot_at ==> #[trigger] cs@[m] != '.',
            digits <==> exists|m: int| start <= m < k && is_digit(#[trigger] cs@[m]),
        decreases b - k,
    {
        let c = cs[k];
        if c == '.' {
            if dot_at < b {
                proof {
                    assert(body[dot_at - start] == '.' && body[k - start] == '.');
                }
                return None;
            }
            dot_at = k;
        } else if '0' <= c && c <= '9' {
            assert(is_digit(cs@[k as int]));
            digits = true;
        } else {
            proof {
                assert(!(is_digit(body[k - start]) || body[k - start] == '.'));
            }
            return None;
        }
        k += 1;
    }
    proof {
        assert forall|m: int| 0 <= m < body.len() implies is_digit(#[trigger] body[m]) || body[m]
            == '.' by {
            assert(body[m] == cs@[start + m]);
        }
        assert forall|p: int, q: int|
            0 <= p < q < body.len() && #[trigger] body[p] == '.' implies #[trigger] body[q] != '.' by {
            assert(body[p] == cs@[start + p]);
            assert(body[q] == cs@[start + q]);
        }
        if digits {
            let m = choose|m: int| start <= m < k && is_digit(#[trigger] cs@[m]);
            assert(is_digit(body[m - start]));
        } else {
            assert forall|m: int| 0 <= m < body.len() implies !is_digit(#[trigger] body[m]) by {
                assert(body[m] == cs@[start + m]);
            }
        }
    }
    if !digits {
        return None;
    }
    let text = copy_range(&cs, a, b);
    Some(string_of(&text))
}

// ---- lang() -----------------------------------------------------------

/// The XML namespace URI, fixed by Namespaces in XML.
pub open spec fn xml_namespace_uri() -> Seq<char> {
    "http://www.w3.org/XML/1998/namespace"@
}

/// Whether an attribute name declares the language: local name `lang` in
/// the XML namespace, or, with no namespace URI, `lang` or the unsplit
/// `xml:lang`. A `lang` in any other namespace is some other attribute.
pub open spec fn lang_attribute_name(n: NameView) -> bool {
    match n.namespace_uri {
        Some(u) => u == xml_namespace_uri() && n.local_name == "lang"@,
        None => n.local_name == "lang"@ || n.local_name == "xml:lang"@,
    }
}

/// Whether an attribute name declares the language (see
/// `lang_attribute_name`).
pub fn is_lang_attribute_name(en: &ExpandedName) -> (r: bool)
    ensures
        r == lang_attribute_name(en@),
{
    match &en.namespace_uri {
        Some(u) => str_eq(u.as_str(), "http://www.w3.org/XML/1998/namespace") && str_eq(
            en.local_name.as_str(),
            "lang",
        ),
        None => str_eq(en.local_name.as_str(), "lang") || str_eq(
            en.local_name.as_str(),
            "xml:lang",
        ),
    }
}

/// A character's code, with ASCII upper case folded to lower case.
pub open spec fn folded(c: char) -> int {
    if 'A' <= c && c <= 'Z' {
        c as int + 32
    } else {
        c as int
    }
}

fn fold(c: char) -> (r: u32)
    ensures
        r == folded(c),
{
    if 'A' <= c && c <= 'Z' {
        (c as u32) + 32
    } else {
        c as u32
    }
}

/// Equality ignoring ASCII case (`str::eq_ignore_ascii_case`).
pub open spec fn eq_ignore_ascii_case(a: Seq<char>, b: Seq<char>) -> bool {
    a.len() == b.len() && forall|i: int| 0 <= i < a.len() ==> #[trigger] folded(a[i]) == folded(b[i])
}

/// Whether the first `n` characters of `a` equal `b`, ignoring ASCII case.
fn prefix_eq_ignore_case(a: &Vec<char>, n: usize, b: &Vec<char>) -> (r: bool)
    requires
        n <= a@.len(),
    ensures
        r == eq_ignore_ascii_case(a@.take(n as int), b@),
{
    if n != b.len() {
        return false;
    }
    let mut i: usize = 0;
    while i < n
        invariant
            n <= a@.len(),
            n == b@.len(),
            i <= n,
            forall|k: int| 0 <= k < i ==> folded(a@[k]) == folded(b@[k]),
        decreases n - i,
    {
        if fold(a[i]) != fold(b[i]) {
            assert(a@.take(n as int)[i as int] == a@[i as int]);
            assert(folded(a@.take(n as int)[i as int]) != folded(b@[i as int]));
            return false;
        }
        i += 1;
    }
    assert forall|k: int| 0 <= k < n implies #[trigger] folded(a@.take(n as int)[k]) == folded(
        b@[k],
    ) by {
        assert(a@.take(n as int)[k] == a@[k]);
    }
    true
}

/// `lang()`'s comparison: the attribute value equals the argument ignoring
/// ASCII case, or does so once some suffix that starts with '-' is dropped.
pub open spec fn lang_value_matches(v: Seq<char>, arg: Seq<char>) -> bool {
    eq_ignore_ascii_case(v, arg) || exists|k: int|
        0 <= k < v.len() && v[k] == '-' && #[trigger] eq_ignore_ascii_case(v.take(k), arg)
}

/// `lang()`'s comparison of a language attribute's value with the argument
/// (see `lang_value_matches`).
pub fn lang_matches(attr_value: &str, arg: &str) -> (r: bool)
    ensures
        r == lang_value_matches(attr_value@, arg@),
{
    let v = chars_of(attr_value);
    let a = chars_of(arg);
    assert(v@.take(v@.len() as int) =~= v@);
    if prefix_eq_ignore_case(&v, v.len(), &a) {
        return true;
    }
    let mut k: usize = 0;
    while k < v.len()
        invariant
            k <= v@.len(),
            v@ == attr_value@,
            a@ == arg@,
            forall|m: int|
                0 <= m < k && v@[m] == '-' ==> !#[trigger] eq_ignore_ascii_case(v@.take(m), a@),
        decreases v.len() - k,
    {
        if v[k] == '-' && prefix_eq_ignore_case(&v, k, &a) {
            return true;
        }
        k += 1;
    }
    false
}

/// The first of `attrs` whose name declares the language.
pub open spec fn first_lang_attr(d: Seq<NodeView>, attrs: Seq<usize>) -> Option<usize>
    decreases attrs.len(),
{
    if attrs.len() == 0 {
        None
    } else if d[attrs[0] as int].name matches Some(nm) && lang_attribute_name(nm) {
        Some(attrs[0])
    } else {
        first_lang_attr(d, attrs.drop_first())
    }
}

/// The value of the node's own first language-declaring attribute, if any.
pub open spec fn own_language(d: Seq<NodeView>, n: int) -> Option<Seq<char>> {
    match first_lang_attr(d, d[n].attributes) {
        Some(a) => Some(d[a as int].text),
        None => None,
    }
}

/// The value of the node's own first language-declaring attribute, if any.
pub fn lang_attribute_value(doc: &Document, n: usize) -> (r: Option<String>)
    requires
        doc.wf(),
        n < doc@.len(),
    ensures
        opt_chars(r) == own_language(doc@, n as int),
{
    let attrs = doc.attributes(n);
    proof {
        lemma_own_nodes(doc@, n as int);
    }
    let mut i: usize = 0;
    assert(attrs@.skip(0) =~= attrs@);
    while i < attrs.len()
        invariant
            doc.wf(),
            n < doc@.len(),
            attrs@ == doc@[n as int].attributes,
            i <= attrs@.len(),
            forall|k: int|
                0 <= k < attrs@.len() ==> #[trigger] attrs@[k] < doc@.len() && doc@[attrs@[k] as int].kind
                    == NodeKind::Attribute,
            first_lang_attr(doc@, attrs@) == first_lang_attr(doc@, attrs@.skip(i as int)),
        decreases attrs.len() - i,
    {
        let a = attrs[i];
        assert(attrs@.skip(i as int).drop_first() =~= attrs@.skip(i + 1));
        assert(attrs@.skip(i as int)[0] == a);
        match doc.expanded_name(a) {
            Some(en) => {
                if is_lang_attribute_name(&en) {
                    return Some(doc.string_value(a));
                }
            },
            None => {},
        }
        i += 1;
    }
    None
}

/// The language of node `n` (§4.3): the value of its own language-declaring
/// attribute, or else that of the nearest ancestor that has one.
pub open spec fn language_of(d: Seq<NodeView>, n: int) -> Option<Seq<char>>
    decreases n,
{
    if n < 0 || n >= d.len() {
        None
    } else {
        match own_language(d, n) {
            Some(v) => Some(v),
            None => match d[n].parent {
                Some(p) => if (p as int) < n {
                    language_of(d, p as int)
                } else {
                    None
                },
                None => None,
            },
        }
    }
}

/// §4.3: a node that declares no language of its own has the language of
/// its parent (and so of its nearest ancestor that declares one).
pub proof fn law_language_is_inherited(d: Seq<NodeView>, n: int)
    requires
        crate::document::wf(d),
        0 < n < d.len(),
        own_language(d, n) is None,
    ensures
        language_of(d, n) == language_of(d, crate::document::parent_index(d, n)),
{
    assert(node_ok(d, n));
}

/// §4.3 `lang()` of node `n`: whether its language (see `language_of`)
/// matches the argument (see `lang_value_matches`); false where no
/// language is declared.
pub fn xpath_lang(doc: &Document, n: usize, arg: &str) -> (r: bool)
    requires
        doc.wf(),
        n < doc@.len(),
    ensures
        r == match language_of(doc@, n as int) {
            Some(v) => lang_value_matches(v, arg@),
            None => false,
        },
{
    let mut cur: usize = n;
    loop
        invariant
            doc.wf(),
            cur < doc@.len(),
            language_of(doc@, n as int) == language_of(doc@, cur as int),
        decreases cur,
    {
        match lang_attribute_value(doc, cur) {
            Some(v) => {
                return lang_matches(v.as_str(), arg);
            },
            None => {},
        }
        proof {
            if cur > 0 {
                assert(node_ok(doc@, cur as int));
            }
        }
        match doc.parent(cur) {
            Some(p) => {
                cur = p;
            },
            None => {
                return false;
            },
        }
    }
}

// ---- local-name(), namespace-uri(), name() ------------------------------

/// The non-empty prefix the first of the namespace nodes `nss` binds to
/// `uri`, if any.
pub open spec fn first_prefix_for(d: Seq<NodeView>, nss: Seq<usize>, uri: Seq<char>) -> Option<
    Seq<char>,
>
    decreases nss.len(),
{
    if nss.len() == 0 {
        None
    } else if d[nss[0] as int].text == uri && (d[nss[0] as int].name matches Some(nm)
        && nm.local_name.len() > 0) {
        Some(d[nss[0] as int].name.unwrap().local_name)
    } else {
        first_prefix_for(d, nss.drop_first(), uri)
    }
}

/// §4.1 `name()` of node `n`: its local name, behind the first non-empty
/// prefix that a namespace node of the element (of the owner element, for
/// an attribute) binds to its namespace URI and a ':'. Just the local name
/// when there is no URI or no such prefix; empty for a node with no name.
pub open spec fn qname_of(d: Seq<NodeView>, n: int) -> Seq<char> {
    match d[n].name {
        None => Seq::empty(),
        Some(en) => match en.namespace_uri {
            None => en.local_name,
            Some(uri) => {
                let owner = if d[n].kind == NodeKind::Attribute {
                    d[n].parent
                } else {
                    Some(n as usize)
                };
                match owner {
                    Some(o) => match first_prefix_for(d, namespace_axis(d, o as int), uri) {
                        Some(p) => p + seq![':'] + en.local_name,
                        None => en.local_name,
                    },
                    None => en.local_name,
                }
            },
        },
    }
}

/// The first non-empty prefix that one of the namespace nodes `nss` binds
/// to `uri`.
fn prefix_for(doc: &Document, nss: &Vec<usize>, uri: &str) -> (r: Option<String>)
    requires
        doc.wf(),
        forall|k: int| 0 <= k < nss@.len() ==> #[trigger] nss@[k] < doc@.len() && doc@[nss@[k] as int].kind
            == NodeKind::Namespace,
    ensures
        opt_chars(r) == first_prefix_for(doc@, nss@, uri@),
{
    let mut i: usize = 0;
    assert(nss@.skip(0) =~= nss@);
    while i < nss.len()
        invariant
            doc.wf(),
            i <= nss@.len(),
            forall|k: int| 0 <= k < nss@.len() ==> #[trigger] nss@[k] < doc@.len() && doc@[nss@[k] as int].kind
                == NodeKind::Namespace,
            first_prefix_for(doc@, nss@, uri@) == first_prefix_for(doc@, nss@.skip(i as int), uri@),
        decreases nss.len() - i,
    {
        let j = nss[i];
        assert(nss@.skip(i as int).drop_first() =~= nss@.skip(i + 1));
        assert(nss@.skip(i as int)[0] == j);
        let bound = doc.string_value(j);
        if str_eq(bound.as_str(), uri) {
            match doc.expanded_name(j) {
                Some(en) => {
                    if chars_of(en.local_name.as_str()).len() > 0 {
                        return Some(en.local_name);
                    }
                },
                None => {},
            }
        }
        i += 1;
    }
    None
}

/// §4.1 `name()` of a node (see `qname_of`).
pub fn qname_string(doc: &Document, n: usize) -> (r: String)
    requires
        doc.wf(),
        n < doc@.len(),
    ensures
        r@ == qname_of(doc@, n as int),
{
    let en = match doc.expanded_name(n) {
        Some(en) => en,
        None => {
            return String::new();
        },
    };
    let uri = match &en.namespace_uri {
        Some(u) => u,
        None => {
            return en.local_name;
        },
    };
    let owner = if doc.kind(n) == NodeKind::Attribute {
        doc.parent(n)
    } else {
        Some(n)
    };
    let o = match owner {
        Some(o) => o,
        None => {
            return en.local_name;
        },
    };
    proof {
        if o != n {
            assert(n > 0);
            assert(node_ok(doc@, n as int));
        }
        lemma_own_nodes(doc@, o as int);
    }
    let nss = namespace(doc, o);
    match prefix_for(doc, &nss, uri.as_str()) {
        Some(p) => {
            let mut out = chars_of(p.as_str());
            out.push(':');
            let local = chars_of(en.local_name.as_str());
            append_chars(&mut out, &local);
            string_of(&out)
        },
        None => en.local_name,
    }
}

/// The local part of a node's expanded name; empty for no node or a node
/// without a name.
pub open spec fn local_name_of(d: Seq<NodeView>, n: Option<usize>) -> Seq<char> {
    match n {
        Some(m) => match d[m as int].name {
            Some(en) => en.local_name,
            None => Seq::empty(),
        },
        None => Seq::empty(),
    }
}

/// §4.1 `local-name()` of the first node of its argument (`None` for an
/// empty node-set).
pub fn node_local_name(doc: &Document, n: Option<usize>) -> (r: String)
    requires
        n matches Some(m) ==> m < doc@.len(),
    ensures
        r@ == local_name_of(doc@, n),
{
    match n {
        Some(m) => match doc.expanded_name(m) {
            Some(en) => en.local_name,
            None => String::new(),
        },
        None => String::new(),
    }
}

/// The namespace URI of a node's expanded name; empty for no node, a node
/// without a name, or a name with no namespace.
pub open spec fn namespace_uri_of(d: Seq<NodeView>, n: Option<usize>) -> Seq<char> {
    match n {
        Some(m) => match d[m as int].name {
            Some(en) => match en.namespace_uri {
                Some(u) => u,
                None => Seq::empty(),
            },
            None => Seq::empty(),
        },
        None => Seq::empty(),
    }
}

/// §4.1 `namespace-uri()` of the first node of its argument (`None` for an
/// empty node-set).
pub fn node_namespace_uri(doc: &Document, n: Option<usize>) -> (r: String)
    requires
        n matches Some(m) ==> m < doc@.len(),
    ensures
        r@ == namespace_uri_of(doc@, n),
{
    match n {
        Some(m) => match doc.expanded_name(m) {
            Some(en) => match en.namespace_uri {
                Some(u) => u,
                None => String::new(),
            },
            None => String::new(),
        },
        None => String::new(),
    }
}

/// §4.1 `name()` of the first node of its argument (`None` for an empty
/// node-set).
pub fn node_name(doc: &Document, n: Option<usize>) -> (r: String)
    requires
        doc.wf(),
        n matches Some(m) ==> m < doc@.len(),
    ensures
        r@ == match n {
            Some(m) => qname_of(doc@, m as int),
            None => Seq::empty(),
        },
{
    match n {
        Some(m) => qname_string(doc, m),
        None => String::new(),
    }
}

// ---- id() ---------------------------------------------------------------

/// Node `a` is an attribute of type ID whose value is `id`.
pub open spec fn is_id_with(d: Seq<NodeView>, a: int, id: Seq<char>) -> bool {
    d[a].is_id && d[a].text == id
}

/// Node `n` has an attribute of type ID whose value is `id`.
pub open spec fn has_id(d: Seq<NodeView>, n: int, id: Seq<char>) -> bool {
    exists|k: int|
        0 <= k < d[n].attributes.len() && #[trigger] is_id_with(d, d[n].attributes[k] as int, id)
}

/// Whether node `n` has an attribute of type ID whose value is `id`.
fn has_id_attribute(doc: &Document, n: usize, id: &str) -> (r: bool)
    requires
        doc.wf(),
        n < doc@.len(),
    ensures
        r == has_id(doc@, n as int, id@),
{
    let attrs = doc.attributes(n);
    proof {
        lemma_own_nodes(doc@, n as int);
    }
    let mut i: usize = 0;
    while i < attrs.len()
        invariant
            doc.wf(),
            n < doc@.len(),
            attrs@ == doc@[n as int].attributes,
            i <= attrs@.len(),
            forall|k: int|
                0 <= k < attrs@.len() ==> #[trigger] attrs@[k] < doc@.len() && doc@[attrs@[k] as int].kind
                    == NodeKind::Attribute,
            forall|k: int| 0 <= k < i ==> !is_id_with(doc@, #[trigger] attrs@[k] as int, id@),
        decreases attrs.len() - i,
    {
        let a = attrs[i];
        if doc.is_id_attribute(a) {
            let v = doc.string_value(a);
            if str_eq(v.as_str(), id) {
                assert(is_id_with(doc@, doc@[n as int].attributes[i as int] as int, id@));
                return true;
            }
        }
        i += 1;
    }
    false
}

/// The first of the nodes `js` that has an ID attribute equal to `id`.
pub open spec fn first_with_id(d: Seq<NodeView>, js: Seq<usize>, id: Seq<char>) -> Option<usize>
    decreases js.len(),
{
    if js.len() == 0 {
        None
    } else if has_id(d, js[0] as int, id) {
        Some(js[0])
    } else {
        first_with_id(d, js.drop_first(), id)
    }
}

proof fn lemma_first_with_id(d: Seq<NodeView>, js: Seq<usize>, id: Seq<char>)
    ensures
        first_with_id(d, js, id) matches Some(e) ==> js.contains(e),
    decreases js.len(),
{
    if js.len() > 0 {
        if has_id(d, js[0] as int, id) {
            assert(js[0] == js[0]);
        } else {
            lemma_first_with_id(d, js.drop_first(), id);
            let r = first_with_id(d, js.drop_first(), id);
            if r is Some {
                let e = r.unwrap();
                let k = choose|k: int| 0 <= k < js.drop_first().len() && js.drop_first()[k] == e;
                assert(js[k + 1] == e);
            }
        }
    }
}

/// The first element, in document order, at or below `root` with an ID
/// attribute equal to `id` (a well-formed document has at most one).
pub fn find_element_by_id(doc: &Document, root: usize, id: &str) -> (r: Option<usize>)
    requires
        doc.wf(),
        root < doc@.len(),
    ensures
        r == first_with_id(doc@, descendant_or_self_axis(doc@, root as int), id@),
{
    let all = descendant_or_self(doc, root);
    proof {
        lemma_axis_in_range(doc@, Axis::DescendantOrSelf, root as int);
        assert(crate::eval::axis_seq(doc@, Axis::DescendantOrSelf, root as int) == all@);
    }
    let mut i: usize = 0;
    assert(all@.skip(0) =~= all@);
    while i < all.len()
        invariant
            doc.wf(),
            i <= all@.len(),
            all@ == descendant_or_self_axis(doc@, root as int),
            forall|k: int| 0 <= k < all@.len() ==> #[trigger] all@[k] < doc@.len(),
            first_with_id(doc@, all@, id@) == first_with_id(doc@, all@.skip(i as int), id@),
        decreases all.len() - i,
    {
        let n = all[i];
        assert(all@.skip(i as int).drop_first() =~= all@.skip(i + 1));
        assert(all@.skip(i as int)[0] == n);
        if has_id_attribute(doc, n, id) {
            return Some(n);
        }
        i += 1;
    }
    None
}

/// The tokens of each string, in order.
pub open spec fn all_tokens(ss: Seq<Seq<char>>) -> Seq<Seq<char>>
    decreases ss.len(),
{
    if ss.len() == 0 {
        Seq::empty()
    } else {
        all_tokens(ss.drop_last()) + ws_tokens(ss.last())
    }
}

/// For each token in turn, the element of the document that has it as ID,
/// where there is one.
pub open spec fn elements_with_ids(d: Seq<NodeView>, ts: Seq<Seq<char>>) -> Seq<usize>
    decreases ts.len(),
{
    if ts.len() == 0 {
        Seq::empty()
    } else {
        elements_with_ids(d, ts.drop_last()) + match first_with_id(
            d,
            descendant_or_self_axis(d, 0),
            ts.last(),
        ) {
            Some(e) => seq![e],
            None => Seq::empty(),
        }
    }
}

/// §4.1 `id()`, given the strings its argument stands for (the
/// string-value of each node of a node-set, or the one string any other
/// value converts to): the elements of the context node's document whose
/// ID is one of the whitespace-separated tokens of those strings, in
/// document order and without duplicates.
pub fn xpath_id(doc: &Document, context: usize, strings: &Vec<String>) -> (r: Vec<usize>)
    requires
        doc.wf(),
        context < doc@.len(),
    ensures
        r@ == in_document_order(
            doc@.len() as int,
            elements_with_ids(doc@, all_tokens(strings_view(strings@))),
        ),
{
    let root = crate::eval::root_of(doc, context);
    proof {
        lemma_axis_in_range(doc@, Axis::DescendantOrSelf, 0);
        assert(crate::eval::axis_seq(doc@, Axis::DescendantOrSelf, 0) == axis_seq_dos(doc@));
    }
    let ghost sv = strings_view(strings@);
    let mut found: Vec<usize> = Vec::new();
    let mut i: usize = 0;
    while i < strings.len()
        invariant
            doc.wf(),
            root == 0,
            i <= strings@.len(),
            sv == strings_view(strings@),
            forall|k: int|
                0 <= k < axis_seq_dos(doc@).len() ==> #[trigger] axis_seq_dos(doc@)[k] < doc@.len(),
            found@ == elements_with_ids(doc@, all_tokens(sv.take(i as int))),
            forall|k: int| 0 <= k < found@.len() ==> #[trigger] found@[k] < doc@.len(),
        decreases strings.len() - i,
    {
        let tokens = whitespace_tokens(strings[i].as_str());
        let ghost base = all_tokens(sv.take(i as int));
        let ghost tv = strings_view(tokens@);
        proof {
            assert(sv.take(i + 1).drop_last() =~= sv.take(i as int));
            assert(sv.take(i + 1).last() == strings@[i as int]@);
            assert(base + tv.take(0) =~= base);
        }
        let mut t: usize = 0;
        while t < tokens.len()
            invariant
                doc.wf(),
                root == 0,
                t <= tokens@.len(),
                tv == strings_view(tokens@),
                forall|k: int|
                    0 <= k < axis_seq_dos(doc@).len() ==> #[trigger] axis_seq_dos(doc@)[k]
                        < doc@.len(),
                found@ == elements_with_ids(doc@, base + tv.take(t as int)),
                forall|k: int| 0 <= k < found@.len() ==> #[trigger] found@[k] < doc@.len(),
            decreases tokens.len() - t,
        {
            proof {
                assert((base + tv.take(t + 1)).drop_last() =~= base + tv.take(t as int));
                assert((base + tv.take(t + 1)).last() == tokens@[t as int]@);
            }
            let found_one = find_element_by_id(doc, root, tokens[t].as_str());
            proof {
                lemma_first_with_id(doc@, axis_seq_dos(doc@), tokens@[t as int]@);
            }
            match found_one {
                Some(e) => {
                    found.push(e);
                },
                None => {},
            }
            t += 1;
        }
        proof {
            assert(tv.take(tv.len() as int) =~= tv);
        }
        i += 1;
    }
    proof {
        assert(sv.take(sv.len() as int) =~= sv);
    }
    sort_dedup(doc, &mut found);
    found
}

/// The descendant-or-self axis of the root: every node but attribute and
/// namespace nodes, in document order.
pub open spec fn axis_seq_dos(d: Seq<NodeView>) -> Seq<usize> {
    descendant_or_self_axis(d, 0)
}

// ---- The function library -------------------------------------------------

/// The functions of the core function library (§4).
#[derive(Debug, Clone, Copy, PartialEq, Eq, Structural)]
pub enum CoreFunction {
    Last,
    Position,
    Count,
    Id,
    LocalName,
    NamespaceUri,
    Name,
    String,
    Concat,
    StartsWith,
    Contains,
    SubstringBefore,
    SubstringAfter,
    Substring,
    StringLength,
    NormalizeSpace,
    Translate,
    Boolean,
    Not,
    True,
    False,
    Lang,
    Number,
    Sum,
    Floor,
    Ceiling,
    Round,
}

/// The library function a name spells, if any.
pub open spec fn core_function_named(name: Seq<char>) -> Option<CoreFunction> {
    if name == "last"@ {
        Some(CoreFunction::Last)
    } else if name == "position"@ {
        Some(CoreFunction::Position)
    } else if name == "count"@ {
        Some(CoreFunction::Count)
    } else if name == "id"@ {
        Some(CoreFunction::Id)
    } else if name == "local-name"@ {
        Some(CoreFunction::LocalName)
    } else if name == "namespace-uri"@ {
        Some(CoreFunction::NamespaceUri)
    } else if name == "name"@ {
        Some(CoreFunction::Name)
    } else if name == "string"@ {
        Some(CoreFunction::String)
    } else if name == "concat"@ {
        Some(CoreFunction::Concat)
    } else if name == "starts-with"@ {
        Some(CoreFunction::StartsWith)
    } else if name == "contains"@ {
        Some(CoreFunction::Contains)
    } else if name == "substring-before"@ {
        Some(CoreFunction::SubstringBefore)
    } else if name == "substring-after"@ {
        Some(CoreFunction::SubstringAfter)
    } else if name == "substring"@ {
        Some(CoreFunction::Substring)
    } else if name == "string-length"@ {
        Some(CoreFunction::StringLength)
    } else if name == "normalize-space"@ {
        Some(CoreFunction::NormalizeSpace)
    } else if name == "translate"@ {
        Some(CoreFunction::Translate)
    } else if name == "boolean"@ {
        Some(CoreFunction::Boolean)
    } else if name == "not"@ {
        Some(CoreFunction::Not)
    } else if name == "true"@ {
        Some(CoreFunction::True)
    } else if name == "false"@ {
        Some(CoreFunction::False)
    } else if name == "lang"@ {
        Some(CoreFunction::Lang)
    } else if name == "number"@ {
        Some(CoreFunction::Number)
    } else if name == "sum"@ {
        Some(CoreFunction::Sum)
    } else if name == "floor"@ {
        Some(CoreFunction::Floor)
    } else if name == "ceiling"@ {
        Some(CoreFunction::Ceiling)
    } else if name == "round"@ {
        Some(CoreFunction::Round)
    } else {
        None
    }
}

/// How the library function is spelled.
pub open spec fn function_name(f: CoreFunction) -> &'static str {
    match f {
        CoreFunction::Last => "last",
        CoreFunction::Position => "position",
        CoreFunction::Count => "count",
        CoreFunction::Id => "id",
        CoreFunction::LocalName => "local-name",
        CoreFunction::NamespaceUri => "namespace-uri",
        CoreFunction::Name => "name",
        CoreFunction::String => "string",
        CoreFunction::Concat => "concat",
        CoreFunction::StartsWith => "starts-with",
        CoreFunction::Contains => "contains",
        CoreFunction::SubstringBefore => "substring-before",
        CoreFunction::SubstringAfter => "substring-after",
        CoreFunction::Substring => "substring",
        CoreFunction::StringLength => "string-length",
        CoreFunction::NormalizeSpace => "normalize-space",
        CoreFunction::Translate => "translate",
        CoreFunction::Boolean => "boolean",
        CoreFunction::Not => "not",
        CoreFunction::True => "true",
        CoreFunction::False => "false",
        CoreFunction::Lang => "lang",
        CoreFunction::Number => "number",
        CoreFunction::Sum => "sum",
        CoreFunction::Floor => "floor",
        CoreFunction::Ceiling => "ceiling",
        CoreFunction::Round => "round",
    }
}

/// The least number of arguments the function takes.
pub open spec fn min_args(f: CoreFunction) -> int {
    match f {
        CoreFunction::Last => 0,
        CoreFunction::Position => 0,
        CoreFunction::Count => 1,
        CoreFunction::Id => 1,
        CoreFunction::LocalName => 0,
        CoreFunction::NamespaceUri => 0,
        CoreFunction::Name => 0,
        CoreFunction::String => 0,
        CoreFunction::Concat => 2,
        CoreFunction::StartsWith => 2,
        CoreFunction::Contains => 2,
        CoreFunction::SubstringBefore => 2,
        CoreFunction::SubstringAfter => 2,
        CoreFunction::Substring => 2,
        CoreFunction::StringLength => 0,
        CoreFunction::NormalizeSpace => 0,
        CoreFunction::Translate => 3,
        CoreFunction::Boolean => 1,
        CoreFunction::Not => 1,
        CoreFunction::True => 0,
        CoreFunction::False => 0,
        CoreFunction::Lang => 1,
        CoreFunction::Number => 0,
        CoreFunction::Sum => 1,
        CoreFunction::Floor => 1,
        CoreFunction::Ceiling => 1,
        CoreFunction::Round => 1,
    }
}

/// The greatest number of arguments the function takes; `None` for
/// `concat()`, which takes any number from two on.
pub open spec fn max_args(f: CoreFunction) -> Option<int> {
    match f {
        CoreFunction::Last => Some(0),
        CoreFunction::Position => Some(0),
        CoreFunction::Count => Some(1),
        CoreFunction::Id => Some(1),
        CoreFunction::LocalName => Some(1),
        CoreFunction::NamespaceUri => Some(1),
        CoreFunction::Name => Some(1),
        CoreFunction::String => Some(1),
        CoreFunction::Concat => None,
        CoreFunction::StartsWith => Some(2),
        CoreFunction::Contains => Some(2),
        CoreFunction::SubstringBefore => Some(2),
        CoreFunction::SubstringAfter => Some(2),
        CoreFunction::Substring => Some(3),
        CoreFunction::StringLength => Some(1),
        CoreFunction::NormalizeSpace => Some(1),
        CoreFunction::Translate => Some(3),
        CoreFunction::Boolean => Some(1),
        CoreFunction::Not => Some(1),
        CoreFunction::True => Some(0),
        CoreFunction::False => Some(0),
        CoreFunction::Lang => Some(1),
        CoreFunction::Number => Some(1),
        CoreFunction::Sum => Some(1),
        CoreFunction::Floor => Some(1),
        CoreFunction::Ceiling => Some(1),
        CoreFunction::Round => Some(1),
    }
}

/// The library function a call names: none for a prefixed name.
pub open spec fn core_function_of(name: QNameView) -> Option<CoreFunction> {
    if name.prefix is Some {
        None
    } else {
        core_function_named(name.local)
    }
}

/// The bound on the number of arguments that `nargs` breaks, if any: the
/// least number where there are too few, the greatest where too many.
pub open spec fn broken_bound(f: CoreFunction, nargs: int) -> Option<int> {
    if nargs < min_args(f) {
        Some(min_args(f))
    } else if max_args(f) is Some && nargs > max_args(f).unwrap() {
        max_args(f)
    } else {
        None
    }
}

/// The library function a name spells, if any.
fn lookup_core_function(name: &str) -> (r: Option<CoreFunction>)
    ensures
        r == core_function_named(name@),
{
    if str_eq(name, "last") {
        Some(CoreFunction::Last)
    } else if str_eq(name, "position") {
        Some(CoreFunction::Position)
    } else if str_eq(name, "count") {
        Some(CoreFunction::Count)
    } else if str_eq(name, "id") {
        Some(CoreFunction::Id)
    } else if str_eq(name, "local-name") {
        Some(CoreFunction::LocalName)
    } else if str_eq(name, "namespace-uri") {
        Some(CoreFunction::NamespaceUri)
    } else if str_eq(name, "name") {
        Some(CoreFunction::Name)
    } else if str_eq(name, "string") {
        Some(CoreFunction::String)
    } else if str_eq(name, "concat") {
        Some(CoreFunction::Concat)
    } else if str_eq(name, "starts-with") {
        Some(CoreFunction::StartsWith)
    } else if str_eq(name, "contains") {
        Some(CoreFunction::Contains)
    } else if str_eq(name, "substring-before") {
        Some(CoreFunction::SubstringBefore)
    } else if str_eq(name, "substring-after") {
        Some(CoreFunction::SubstringAfter)
    } else if str_eq(name, "substring") {
        Some(CoreFunction::Substring)
    } else if str_eq(name, "string-length") {
        Some(CoreFunction::StringLength)
    } else if str_eq(name, "normalize-space") {
        Some(CoreFunction::NormalizeSpace)
    } else if str_eq(name, "translate") {
        Some(CoreFunction::Translate)
    } else if str_eq(name, "boolean") {
        Some(CoreFunction::Boolean)
    } else if str_eq(name, "not") {
        Some(CoreFunction::Not)
    } else if str_eq(name, "true") {
        Some(CoreFunction::True)
    } else if str_eq(name, "false") {
        Some(CoreFunction::False)
    } else if str_eq(name, "lang") {
        Some(CoreFunction::Lang)
    } else if str_eq(name, "number") {
        Some(CoreFunction::Number)
    } else if str_eq(name, "sum") {
        Some(CoreFunction::Sum)
    } else if str_eq(name, "floor") {
        Some(CoreFunction::Floor)
    } else if str_eq(name, "ceiling") {
        Some(CoreFunction::Ceiling)
    } else if str_eq(name, "round") {
        Some(CoreFunction::Round)
    } else {
        None
    }
}

/// The function a call names and the check of its number of arguments,
/// made before any argument is evaluated: an unknown function (a prefixed
/// name, or one outside the library) or the broken bound on the number of
/// arguments is an error.
pub fn resolve_function(name: &QName, nargs: usize) -> (r: Result<CoreFunction, EvalError>)
    ensures
        match core_function_of(name@) {
            None => r matches Err(EvalError::UnknownFunction(q)) && q@ == name@,
            Some(f) => match broken_bound(f, nargs as int) {
                Some(b) => r == Err::<CoreFunction, EvalError>(
                    EvalError::ArgumentCount { function: function_name(f), expected: b as usize, got: nargs },
                ),
                None => r == Ok::<CoreFunction, EvalError>(f),
            },
        },
{
    let unknown = EvalError::UnknownFunction(
        QName { prefix: crate::document::copy_opt_string(&name.prefix), local: name.local.clone() },
    );
    if name.prefix.is_some() {
        return Err(unknown);
    }
    let f = match lookup_core_function(name.local.as_str()) {
        Some(f) => f,
        None => {
            return Err(unknown);
        },
    };
    let checked = match f {
        CoreFunction::Last => check_arity("last", nargs, 0),
        CoreFunction::Position => check_arity("position", nargs, 0),
        CoreFunction::Count => check_arity("count", nargs, 1),
        CoreFunction::Id => check_arity("id", nargs, 1),
        CoreFunction::LocalName => check_arity_range("local-name", nargs, 0, 1),
        CoreFunction::NamespaceUri => check_arity_range("namespace-uri", nargs, 0, 1),
        CoreFunction::Name => check_arity_range("name", nargs, 0, 1),
        CoreFunction::String => check_arity_range("string", nargs, 0, 1),
        CoreFunction::Concat => check_min_arity("concat", nargs, 2),
        CoreFunction::StartsWith => check_arity("starts-with", nargs, 2),
        CoreFunction::Contains => check_arity("contains", nargs, 2),
        CoreFunction::SubstringBefore => check_arity("substring-before", nargs, 2),
        CoreFunction::SubstringAfter => check_arity("substring-after", nargs, 2),
        CoreFunction::Substring => check_arity_range("substring", nargs, 2, 3),
        CoreFunction::StringLength => check_arity_range("string-length", nargs, 0, 1),
        CoreFunction::NormalizeSpace => check_arity_range("normalize-space", nargs, 0, 1),
        CoreFunction::Translate => check_arity("translate", nargs, 3),
        CoreFunction::Boolean => check_arity("boolean", nargs, 1),
        CoreFunction::Not => check_arity("not", nargs, 1),
        CoreFunction::True => check_arity("true", nargs, 0),
        CoreFunction::False => check_arity("false", nargs, 0),
        CoreFunction::Lang => check_arity("lang", nargs, 1),
        CoreFunction::Number => check_arity_range("number", nargs, 0, 1),
        CoreFunction::Sum => check_arity("sum", nargs, 1),
        CoreFunction::Floor => check_arity("floor", nargs, 1),
        CoreFunction::Ceiling => check_arity("ceiling", nargs, 1),
        CoreFunction::Round => check_arity("round", nargs, 1),
    };
    match checked {
        Ok(()) => Ok(f),
        Err(e) => Err(e),
    }
}


/// The library function a name resolves to is the one spelled by that
/// name, and each library function's own name resolves to it.
pub proof fn law_function_names(s: Seq<char>, f: CoreFunction)
    ensures
        core_function_named(s) matches Some(g) ==> function_name(g)@ == s,
        core_function_named(function_name(f)@) == Some(f),
{
    lemma_names_distinct();
}

/// The names of the library functions are told apart by their characters.
proof fn lemma_names_distinct()
    ensures
        forall|f: CoreFunction| #[trigger] core_function_named(function_name(f)@) == Some(f),
{
    reveal_strlit("last");
    reveal_strlit("position");
    reveal_strlit("count");
    reveal_strlit("id");
    reveal_strlit("local-name");
    reveal_strlit("namespace-uri");
    reveal_strlit("name");
    reveal_strlit("string");
    reveal_strlit("concat");
    reveal_strlit("starts-with");
    reveal_strlit("contains");
    reveal_strlit("substring-before");
    reveal_strlit("substring-after");
    reveal_strlit("substring");
    reveal_strlit("string-length");
    reveal_strlit("normalize-space");
    reveal_strlit("translate");
    reveal_strlit("boolean");
    reveal_strlit("not");
    reveal_strlit("true");
    reveal_strlit("false");
    reveal_strlit("lang");
    reveal_strlit("number");
    reveal_strlit("sum");
    reveal_strlit("floor");
    reveal_strlit("ceiling");
    reveal_strlit("round");
    assert("position"@[0] != "last"@[0]);
    assert("count"@[0] != "last"@[0]);
    assert("count"@[0] != "position"@[0]);
    assert("id"@[0] != "last"@[0]);
    assert("id"@[0] != "position"@[0]);
    assert("id"@[0] != "count"@[0]);
    assert("local-name"@[1] != "last"@[1]);
    assert("local-name"@[0] != "position"@[0]);
    assert("local-name"@[0] != "count"@[0]);
    assert("local-name"@[0] != "id"@[0]);
    assert("namespace-uri"@[0] != "last"@[0]);
    assert("namespace-uri"@[0] != "position"@[0]);
    assert("namespace-uri"@[0] != "count"@[0]);
    assert("namespace-uri"@[0] != "id"@[0]);
    assert("namespace-uri"@[0] != "local-name"@[0]);
    assert("name"@[0] != "last"@[0]);
    assert("name"@[0] != "position"@[0]);
    assert("name"@[0] != "count"@[0]);
    assert("name"@[0] != "id"@[0]);
    assert("name"@[0] != "local-name"@[0]);
    assert("name"@.len() != "namespace-uri"@.len());
    assert("string"@[0] != "last"@[0]);
    assert("string"@[0] != "position"@[0]);
    assert("string"@[0] != "count"@[0]);
    assert("string"@[0] != "id"@[0]);
    assert("string"@[0] != "local-name"@[0]);
    assert("string"@[0] != "namespace-uri"@[0]);
    assert("string"@[0] != "name"@[0]);
    assert("concat"@[0] != "last"@[0]);
    assert("concat"@[0] != "position"@[0]);
    assert("concat"@[2] != "count"@[2]);
    assert("concat"@[0] != "id"@[0]);
    assert("concat"@[0] != "local-name"@[0]);
    assert("concat"@[0] != "namespace-uri"@[0]);
    assert("concat"@[0] != "name"@[0]);
    assert("concat"@[0] != "string"@[0]);
    assert("starts-with"@[0] != "last"@[0]);
    assert("starts-with"@[0] != "position"@[0]);
    assert("starts-with"@[0] != "count"@[0]);
    assert("starts-with"@[0] != "id"@[0]);
    assert("starts-with"@[0] != "local-name"@[0]);
    assert("starts-with"@[0] != "namespace-uri"@[0]);
    assert("starts-with"@[0] != "name"@[0]);
    assert("starts-with"@[2] != "string"@[2]);
    assert("starts-with"@[0] != "concat"@[0]);
    assert("contains"@[0] != "last"@[0]);
    assert("contains"@[0] != "position"@[0]);
    assert("contains"@[2] != "count"@[2]);
    assert("contains"@[0] != "id"@[0]);
    assert("contains"@[0] != "local-name"@[0]);
    assert("contains"@[0] != "namespace-uri"@[0]);
    assert("contains"@[0] != "name"@[0]);
    assert("contains"@[0] != "string"@[0]);
    assert("contains"@[3] != "concat"@[3]);
    assert("contains"@[0] != "starts-with"@[0]);
    assert("substring-before"@[0] != "last"@[0]);
    assert("substring-before"@[0] != "position"@[0]);
    assert("substring-before"@[0] != "count"@[0]);
    assert("substring-before"@[0] != "id"@[0]);
    assert("substring-before"@[0] != "local-name"@[0]);
    assert("substring-before"@[0] != "namespace-uri"@[0]);
    assert("substring-before"@[0] != "name"@[0]);
    assert("substring-before"@[1] != "string"@[1]);
    assert("substring-before"@[0] != "concat"@[0]);
    assert("substring-before"@[1] != "starts-with"@[1]);
    assert("substring-before"@[0] != "contains"@[0]);
    assert("substring-after"@[0] != "last"@[0]);
    assert("substring-after"@[0] != "position"@[0]);
    assert("substring-after"@[0] != "count"@[0]);
    assert("substring-after"@[0] != "id"@[0]);
    assert("substring-after"@[0] != "local-name"@[0]);
    assert("substring-after"@[0] != "namespace-uri"@[0]);
    assert("substring-after"@[0] != "name"@[0]);
    assert("substring-after"@[1] != "string"@[1]);
    assert("substring-after"@[0] != "concat"@[0]);
    assert("substring-after"@[1] != "starts-with"@[1]);
    assert("substring-after"@[0] != "contains"@[0]);
    assert("substring-after"@[10] != "substring-before"@[10]);
    assert("substring"@[0] != "last"@[0]);
    assert("substring"@[0] != "position"@[0]);
    assert("substring"@[0] != "count"@[0]);
    assert("substring"@[0] != "id"@[0]);
    assert("substring"@[0] != "local-name"@[0]);
    assert("substring"@[0] != "namespace-uri"@[0]);
    assert("substring"@[0] != "name"@[0]);
    assert("substring"@[1] != "string"@[1]);
    assert("substring"@[0] != "concat"@[0]);
    assert("substring"@[1] != "starts-with"@[1]);
    assert("substring"@[0] != "contains"@[0]);
    assert("substring"@.len() != "substring-before"@.len());
    assert("substring"@.len() != "substring-after"@.len());
    assert("string-length"@[0] != "last"@[0]);
    assert("string-length"@[0] != "position"@[0]);
    assert("string-length"@[0] != "count"@[0]);
    assert("string-length"@[0] != "id"@[0]);
    assert("string-length"@[0] != "local-name"@[0]);
    assert("string-length"@[0] != "namespace-uri"@[0]);
    assert("string-length"@[0] != "name"@[0]);
    assert("string-length"@.len() != "string"@.len());
    assert("string-length"@[0] != "concat"@[0]);
    assert("string-length"@[2] != "starts-with"@[2]);
    assert("string-length"@[0] != "contains"@[0]);
    assert("string-length"@[1] != "substring-before"@[1]);
    assert("string-length"@[1] != "substring-after"@[1]);
    assert("string-length"@[1] != "substring"@[1]);
    assert("normalize-space"@[0] != "last"@[0]);
    assert("normalize-space"@[0] != "position"@[0]);
    assert("normalize-space"@[0] != "count"@[0]);
    assert("normalize-space"@[0] != "id"@[0]);
    assert("normalize-space"@[0] != "local-name"@[0]);
    assert("normalize-space"@[1] != "namespace-uri"@[1]);
    assert("normalize-space"@[1] != "name"@[1]);
    assert("normalize-space"@[0] != "string"@[0]);
    assert("normalize-space"@[0] != "concat"@[0]);
    assert("normalize-space"@[0] != "starts-with"@[0]);
    assert("normalize-space"@[0] != "contains"@[0]);
    assert("normalize-space"@[0] != "substring-before"@[0]);
    assert("normalize-space"@[0] != "substring-after"@[0]);
    assert("normalize-space"@[0] != "substring"@[0]);
    assert("normalize-space"@[0] != "string-length"@[0]);
    assert("translate"@[0] != "last"@[0]);
    assert("translate"@[0] != "position"@[0]);
    assert("translate"@[0] != "count"@[0]);
    assert("translate"@[0] != "id"@[0]);
    assert("translate"@[0] != "local-name"@[0]);
    assert("translate"@[0] != "namespace-uri"@[0]);
    assert("translate"@[0] != "name"@[0]);
    assert("translate"@[0] != "string"@[0]);
    assert("translate"@[0] != "concat"@[0]);
    assert("translate"@[0] != "starts-with"@[0]);
    assert("translate"@[0] != "contains"@[0]);
    assert("translate"@[0] != "substring-before"@[0]);
    assert("translate"@[0] != "substring-after"@[0]);
    assert("translate"@[0] != "substring"@[0]);
    assert("translate"@[0] != "string-length"@[0]);
    assert("translate"@[0] != "normalize-space"@[0]);
    assert("boolean"@[0] != "last"@[0]);
    assert("boolean"@[0] != "position"@[0]);
    assert("boolean"@[0] != "count"@[0]);
    assert("boolean"@[0] != "id"@[0]);
    assert("boolean"@[0] != "local-name"@[0]);
    assert("boolean"@[0] != "namespace-uri"@[0]);
    assert("boolean"@[0] != "name"@[0]);
    assert("boolean"@[0] != "string"@[0]);
    assert("boolean"@[0] != "concat"@[0]);
    assert("boolean"@[0] != "starts-with"@[0]);
    assert("boolean"@[0] != "contains"@[0]);
    assert("boolean"@[0] != "substring-before"@[0]);
    assert("boolean"@[0] != "substring-after"@[0]);
    assert("boolean"@[0] != "substring"@[0]);
    assert("boolean"@[0] != "string-length"@[0]);
    assert("boolean"@[0] != "normalize-space"@[0]);
    assert("boolean"@[0] != "translate"@[0]);
    assert("not"@[0] != "last"@[0]);
    assert("not"@[0] != "position"@[0]);
    assert("not"@[0] != "count"@[0]);
    assert("not"@[0] != "id"@[0]);
    assert("not"@[0] != "local-name"@[0]);
    assert("not"@[1] != "namespace-uri"@[1]);
    assert("not"@[1] != "name"@[1]);
    assert("not"@[0] != "string"@[0]);
    assert("not"@[0] != "concat"@[0]);
    assert("not"@[0] != "starts-with"@[0]);
    assert("not"@[0] != "contains"@[0]);
    assert("not"@[0] != "substring-before"@[0]);
    assert("not"@[0] != "substring-after"@[0]);
    assert("not"@[0] != "substring"@[0]);
    assert("not"@[0] != "string-length"@[0]);
    assert("not"@[2] != "normalize-space"@[2]);
    assert("not"@[0] != "translate"@[0]);
    assert("not"@[0] != "boolean"@[0]);
    assert("true"@[0] != "last"@[0]);
    assert("true"@[0] != "position"@[0]);
    assert("true"@[0] != "count"@[0]);
    assert("true"@[0] != "id"@[0]);
    assert("true"@[0] != "local-name"@[0]);
    assert("true"@[0] != "namespace-uri"@[0]);
    assert("true"@[0] != "name"@[0]);
    assert("true"@[0] != "string"@[0]);
    assert("true"@[0] != "concat"@[0]);
    assert("true"@[0] != "starts-with"@[0]);
    assert("true"@[0] != "contains"@[0]);
    assert("true"@[0] != "substring-before"@[0]);
    assert("true"@[0] != "substring-after"@[0]);
    assert("true"@[0] != "substring"@[0]);
    assert("true"@[0] != "string-length"@[0]);
    assert("true"@[0] != "normalize-space"@[0]);
    assert("true"@[2] != "translate"@[2]);
    assert("true"@[0] != "boolean"@[0]);
    assert("true"@[0] != "not"@[0]);
    assert("false"@[0] != "last"@[0]);
    assert("false"@[0] != "position"@[0]);
    assert("false"@[0] != "count"@[0]);
    assert("false"@[0] != "id"@[0]);
    assert("false"@[0] != "local-name"@[0]);
    assert("false"@[0] != "namespace-uri"@[0]);
    assert("false"@[0] != "name"@[0]);
    assert("false"@[0] != "string"@[0]);
    assert("false"@[0] != "concat"@[0]);
    assert("false"@[0] != "starts-with"@[0]);
    assert("false"@[0] != "contains"@[0]);
    assert("false"@[0] != "substring-before"@[0]);
    assert("false"@[0] != "substring-after"@[0]);
    assert("false"@[0] != "substring"@[0]);
    assert("false"@[0] != "string-length"@[0]);
    assert("false"@[0] != "normalize-space"@[0]);
    assert("false"@[0] != "translate"@[0]);
    assert("false"@[0] != "boolean"@[0]);
    assert("false"@[0] != "not"@[0]);
    assert("false"@[0] != "true"@[0]);
    assert("lang"@[2] != "last"@[2]);
    assert("lang"@[0] != "position"@[0]);
    assert("lang"@[0] != "count"@[0]);
    assert("lang"@[0] != "id"@[0]);
    assert("lang"@[1] != "local-name"@[1]);
    assert("lang"@[0] != "namespace-uri"@[0]);
    assert("lang"@[0] != "name"@[0]);
    assert("lang"@[0] != "string"@[0]);
    assert("lang"@[0] != "concat"@[0]);
    assert("lang"@[0] != "starts-with"@[0]);
    assert("lang"@[0] != "contains"@[0]);
    assert("lang"@[0] != "substring-before"@[0]);
    assert("lang"@[0] != "substring-after"@[0]);
    assert("lang"@[0] != "substring"@[0]);
    assert("lang"@[0] != "string-length"@[0]);
    assert("lang"@[0] != "normalize-space"@[0]);
    assert("lang"@[0] != "translate"@[0]);
    assert("lang"@[0] != "boolean"@[0]);
    assert("lang"@[0] != "not"@[0]);
    assert("lang"@[0] != "true"@[0]);
    assert("lang"@[0] != "false"@[0]);
    assert("number"@[0] != "last"@[0]);
    assert("number"@[0] != "position"@[0]);
    assert("number"@[0] != "count"@[0]);
    assert("number"@[0] != "id"@[0]);
    assert("number"@[0] != "local-name"@[0]);
    assert("number"@[1] != "namespace-uri"@[1]);
    assert("number"@[1] != "name"@[1]);
    assert("number"@[0] != "string"@[0]);
    assert("number"@[0] != "concat"@[0]);
    assert("number"@[0] != "starts-with"@[0]);
    assert("number"@[0] != "contains"@[0]);
    assert("number"@[0] != "substring-before"@[0]);
    assert("number"@[0] != "substring-after"@[0]);
    assert("number"@[0] != "substring"@[0]);
    assert("number"@[0] != "string-length"@[0]);
    assert("number"@[1] != "normalize-space"@[1]);
    assert("number"@[0] != "translate"@[0]);
    assert("number"@[0] != "boolean"@[0]);
    assert("number"@[1] != "not"@[1]);
    assert("number"@[0] != "true"@[0]);
    assert("number"@[0] != "false"@[0]);
    assert("number"@[0] != "lang"@[0]);
    assert("sum"@[0] != "last"@[0]);
    assert("sum"@[0] != "position"@[0]);
    assert("sum"@[0] != "count"@[0]);
    assert("sum"@[0] != "id"@[0]);
    assert("sum"@[0] != "local-name"@[0]);
    assert("sum"@[0] != "namespace-uri"@[0]);
    assert("sum"@[0] != "name"@[0]);
    assert("sum"@[1] != "string"@[1]);
    assert("sum"@[0] != "concat"@[0]);
    assert("sum"@[1] != "starts-with"@[1]);
    assert("sum"@[0] != "contains"@[0]);
    assert("sum"@[2] != "substring-before"@[2]);
    assert("sum"@[2] != "substring-after"@[2]);
    assert("sum"@[2] != "substring"@[2]);
    assert("sum"@[1] != "string-length"@[1]);
    assert("sum"@[0] != "normalize-space"@[0]);
    assert("sum"@[0] != "translate"@[0]);
    assert("sum"@[0] != "boolean"@[0]);
    assert("sum"@[0] != "not"@[0]);
    assert("sum"@[0] != "true"@[0]);
    assert("sum"@[0] != "false"@[0]);
    assert("sum"@[0] != "lang"@[0]);
    assert("sum"@[0] != "number"@[0]);
    assert("floor"@[0] != "last"@[0]);
    assert("floor"@[0] != "position"@[0]);
    assert("floor"@[0] != "count"@[0]);
    assert("floor"@[0] != "id"@[0]);
    assert("floor"@[0] != "local-name"@[0]);
    assert("floor"@[0] != "namespace-uri"@[0]);
    assert("floor"@[0] != "name"@[0]);
    assert("floor"@[0] != "string"@[0]);
    assert("floor"@[0] != "concat"@[0]);
    assert("floor"@[0] != "starts-with"@[0]);
    assert("floor"@[0] != "contains"@[0]);
    assert("floor"@[0] != "substring-before"@[0]);
    assert("floor"@[0] != "substring-after"@[0]);
    assert("floor"@[0] != "substring"@[0]);
    assert("floor"@[0] != "string-length"@[0]);
    assert("floor"@[0] != "normalize-space"@[0]);
    assert("floor"@[0] != "translate"@[0]);
    assert("floor"@[0] != "boolean"@[0]);
    assert("floor"@[0] != "not"@[0]);
    assert("floor"@[0] != "true"@[0]);
    assert("floor"@[1] != "false"@[1]);
    assert("floor"@[0] != "lang"@[0]);
    assert("floor"@[0] != "number"@[0]);
    assert("floor"@[0] != "sum"@[0]);
    assert("ceiling"@[0] != "last"@[0]);
    assert("ceiling"@[0] != "position"@[0]);
    assert("ceiling"@[1] != "count"@[1]);
    assert("ceiling"@[0] != "id"@[0]);
    assert("ceiling"@[0] != "local-name"@[0]);
    assert("ceiling"@[0] != "namespace-uri"@[0]);
    assert("ceiling"@[0] != "name"@[0]);
    assert("ceiling"@[0] != "string"@[0]);
    assert("ceiling"@[1] != "concat"@[1]);
    assert("ceiling"@[0] != "starts-with"@[0]);
    assert("ceiling"@[1] != "contains"@[1]);
    assert("ceiling"@[0] != "substring-before"@[0]);
    assert("ceiling"@[0] != "substring-after"@[0]);
    assert("ceiling"@[0] != "substring"@[0]);
    assert("ceiling"@[0] != "string-length"@[0]);
    assert("ceiling"@[0] != "normalize-space"@[0]);
    assert("ceiling"@[0] != "translate"@[0]);
    assert("ceiling"@[0] != "boolean"@[0]);
    assert("ceiling"@[0] != "not"@[0]);
    assert("ceiling"@[0] != "true"@[0]);
    assert("ceiling"@[0] != "false"@[0]);
    assert("ceiling"@[0] != "lang"@[0]);
    assert("ceiling"@[0] != "number"@[0]);
    assert("ceiling"@[0] != "sum"@[0]);
    assert("ceiling"@[0] != "floor"@[0]);
    assert("round"@[0] != "last"@[0]);
    assert("round"@[0] != "position"@[0]);
    assert("round"@[0] != "count"@[0]);
    assert("round"@[0] != "id"@[0]);
    assert("round"@[0] != "local-name"@[0]);
    assert("round"@[0] != "namespace-uri"@[0]);
    assert("round"@[0] != "name"@[0]);
    assert("round"@[0] != "string"@[0]);
    assert("round"@[0] != "concat"@[0]);
    assert("round"@[0] != "starts-with"@[0]);
    assert("round"@[0] != "contains"@[0]);
    assert("round"@[0] != "substring-before"@[0]);
    assert("round"@[0] != "substring-after"@[0]);
    assert("round"@[0] != "substring"@[0]);
    assert("round"@[0] != "string-length"@[0]);
    assert("round"@[0] != "normalize-space"@[0]);
    assert("round"@[0] != "translate"@[0]);
    assert("round"@[0] != "boolean"@[0]);
    assert("round"@[0] != "not"@[0]);
    assert("round"@[0] != "true"@[0]);
    assert("round"@[0] != "false"@[0]);
    assert("round"@[0] != "lang"@[0]);
    assert("round"@[0] != "number"@[0]);
    assert("round"@[0] != "sum"@[0]);
    assert("round"@[0] != "floor"@[0]);
    assert("round"@[0] != "ceiling"@[0]);
    assert forall|f: CoreFunction| #[trigger] core_function_named(function_name(f)@) == Some(f) by {
        match f {
            CoreFunction::Last => {},
            CoreFunction::Position => {},
            CoreFunction::Count => {},
            CoreFunction::Id => {},
            CoreFunction::LocalName => {},
            CoreFunction::NamespaceUri => {},
            CoreFunction::Name => {},
            CoreFunction::String => {},
            CoreFunction::Concat => {},
            CoreFunction::StartsWith => {},
            CoreFunction::Contains => {},
            CoreFunction::SubstringBefore => {},
            CoreFunction::SubstringAfter => {},
            CoreFunction::Substring => {},
            CoreFunction::StringLength => {},
            CoreFunction::NormalizeSpace => {},
            CoreFunction::Translate => {},
            CoreFunction::Boolean => {},
            CoreFunction::Not => {},
            CoreFunction::True => {},
            CoreFunction::False => {},
            CoreFunction::Lang => {},
            CoreFunction::Number => {},
            CoreFunction::Sum => {},
            CoreFunction::Floor => {},
            CoreFunction::Ceiling => {},
            CoreFunction::Round => {},
        }
    }
}

/// The tokens of strings one after another are the tokens of each string
/// one after another: every token of every string, in order.
pub proof fn law_all_tokens(ss: Seq<Seq<char>>, tt: Seq<Seq<char>>, s: Seq<char>)
    ensures
        all_tokens(Seq::empty()) == Seq::<Seq<char>>::empty(),
        all_tokens(ss.push(s)) == all_tokens(ss) + ws_tokens(s),
        all_tokens(ss + tt) == all_tokens(ss) + all_tokens(tt),
    decreases tt.len(),
{
    assert(ss.push(s).drop_last() =~= ss);
    if tt.len() == 0 {
        assert(ss + tt =~= ss);
        assert(all_tokens(ss) + Seq::<Seq<char>>::empty() =~= all_tokens(ss));
    } else {
        law_all_tokens(ss, tt.drop_last(), s);
        assert((ss + tt).drop_last() =~= ss + tt.drop_last());
        assert((ss + tt).last() == tt.last());
        assert(all_tokens(ss) + all_tokens(tt.drop_last()) + ws_tokens(tt.last()) =~= all_tokens(ss)
            + (all_tokens(tt.drop_last()) + ws_tokens(tt.last())));
    }
}

/// `local-name()`, `namespace-uri()` and `name()` of a node read its
/// expanded name, whatever its kind: the local part; the namespace URI
/// (empty where there is none); and the local part, behind a non-empty
/// prefix and ':' only where the name has a namespace URI. A node with no
/// name, or no node, gives the empty string to all three.
pub proof fn law_node_names(d: Seq<NodeView>, m: usize)
    requires
        m < d.len(),
    ensures
        local_name_of(d, None) == Seq::<char>::empty(),
        namespace_uri_of(d, None) == Seq::<char>::empty(),
        d[m as int].name is None ==> local_name_of(d, Some(m)) == Seq::<char>::empty()
            && namespace_uri_of(d, Some(m)) == Seq::<char>::empty() && qname_of(d, m as int)
            == Seq::<char>::empty(),
        d[m as int].name matches Some(en) ==> {
            &&& local_name_of(d, Some(m)) == en.local_name
            &&& en.namespace_uri matches Some(u) ==> namespace_uri_of(d, Some(m)) == u
            &&& en.namespace_uri is None ==> namespace_uri_of(d, Some(m)) == Seq::<char>::empty()
            &&& en.namespace_uri is None ==> qname_of(d, m as int) == en.local_name
            &&& qname_of(d, m as int) == en.local_name || exists|p: Seq<char>|
                p.len() > 0 && qname_of(d, m as int) == p + seq![':'] + en.local_name
        },
{
    if let Some(en) = d[m as int].name {
        if let Some(uri) = en.namespace_uri {
            let owner = if d[m as int].kind == NodeKind::Attribute {
                d[m as int].parent
            } else {
                Some(m)
            };
            if let Some(o) = owner {
                lemma_first_prefix_nonempty(d, namespace_axis(d, o as int), uri);
                if let Some(p) = first_prefix_for(d, namespace_axis(d, o as int), uri) {
                    assert(qname_of(d, m as int) == p + seq![':'] + en.local_name);
                    assert(p.len() > 0);
                }
            }
        }
    }
}

/// A prefix found for a URI is not empty.
proof fn lemma_first_prefix_nonempty(d: Seq<NodeView>, nss: Seq<usize>, uri: Seq<char>)
    ensures
        first_prefix_for(d, nss, uri) matches Some(p) ==> p.len() > 0,
    decreases nss.len(),
{
    if nss.len() > 0 {
        lemma_first_prefix_nonempty(d, nss.drop_first(), uri);
    }
}


/// The first occurrence of `b` in `a` is an occurrence with none before
/// it; where there is none, `b` occurs nowhere in `a`. So
/// `substring-before()` and `substring-after()` split `a` around it:
/// `a` is the part before, then `b`, then the part after.
pub proof fn law_first_occurrence(a: Seq<char>, b: Seq<char>)
    ensures
        first_occurrence(a, b) matches Some(k) ==> {
            &&& occurs_at(a, b, k)
            &&& forall|j: int| 0 <= j < k ==> !#[trigger] occurs_at(a, b, j)
            &&& a.take(k) + b + a.skip(k + b.len()) == a
        },
        first_occurrence(a, b) is None ==> forall|j: int| !#[trigger] occurs_at(a, b, j),
{
    lemma_first_occurrence_none_before(a, b, 0);
    lemma_first_occurrence_from(a, b, 0);
    if let Some(k) = first_occurrence(a, b) {
        assert(a.subrange(k, k + b.len()) == b);
        assert(a.take(k) + b + a.skip(k + b.len()) =~= a);
    }
}

/// No occurrence lies between `i` and the first one found from `i`.
proof fn lemma_first_occurrence_none_before(a: Seq<char>, b: Seq<char>, i: int)
    requires
        0 <= i,
    ensures
        first_occurrence_from(a, b, i) matches Some(k) ==> forall|j: int|
            i <= j < k ==> !#[trigger] occurs_at(a, b, j),
        first_occurrence_from(a, b, i) is None ==> forall|j: int| i <= j ==> !#[trigger] occurs_at(
            a,
            b,
            j,
        ),
    decreases a.len() + 1 - i,
{
    if i + b.len() <= a.len() && !occurs_at(a, b, i) {
        lemma_first_occurrence_none_before(a, b, i + 1);
    }
}


/// Some node of `r` has an ID attribute equal to `t`.
pub open spec fn some_has_id(d: Seq<NodeView>, r: Seq<usize>, t: Seq<char>) -> bool {
    exists|k: int| 0 <= k < r.len() && #[trigger] has_id(d, r[k] as int, t)
}

proof fn lemma_first_with_id_found(d: Seq<NodeView>, js: Seq<usize>, id: Seq<char>)
    ensures
        first_with_id(d, js, id) matches Some(e) ==> js.contains(e) && has_id(d, e as int, id),
        some_has_id(d, js, id) ==> first_with_id(d, js, id) is Some,
    decreases js.len(),
{
    lemma_first_with_id(d, js, id);
    if js.len() > 0 {
        lemma_first_with_id_found(d, js.drop_first(), id);
        if some_has_id(d, js, id) && !has_id(d, js[0] as int, id) {
            let k = choose|k: int| 0 <= k < js.len() && #[trigger] has_id(d, js[k] as int, id);
            assert(js.drop_first()[k - 1] == js[k]);
            assert(some_has_id(d, js.drop_first(), id));
        }
    }
}

/// `id()` on the tokens `ts` finds only nodes of the document with an ID
/// equal to one of the tokens, and for every token that some node of the
/// document has as ID, it finds a node with that ID.
pub proof fn law_id_elements(d: Seq<NodeView>, ts: Seq<Seq<char>>)
    ensures
        forall|k: int|
            0 <= k < elements_with_ids(d, ts).len() ==> descendant_or_self_axis(d, 0).contains(
                #[trigger] elements_with_ids(d, ts)[k],
            ) && exists|i: int|
                0 <= i < ts.len() && has_id(d, elements_with_ids(d, ts)[k] as int, #[trigger] ts[i]),
        forall|i: int|
            0 <= i < ts.len() && some_has_id(d, descendant_or_self_axis(d, 0), #[trigger] ts[i])
                ==> some_has_id(d, elements_with_ids(d, ts), ts[i]),
    decreases ts.len(),
{
    if ts.len() > 0 {
        let pre = ts.drop_last();
        law_id_elements(d, pre);
        let t = ts.last();
        let js = descendant_or_self_axis(d, 0);
        lemma_first_with_id_found(d, js, t);
        let a = elements_with_ids(d, pre);
        let b = match first_with_id(d, js, t) {
            Some(e) => seq![e],
            None => Seq::<usize>::empty(),
        };
        let r = elements_with_ids(d, ts);
        assert(r == a + b);
        assert forall|k: int| 0 <= k < r.len() implies js.contains(#[trigger] r[k]) && exists|i: int|
            0 <= i < ts.len() && has_id(d, r[k] as int, #[trigger] ts[i]) by {
            if k < a.len() {
                assert(r[k] == a[k]);
                let i = choose|i: int| 0 <= i < pre.len() && has_id(d, a[k] as int, #[trigger] pre[i]);
                assert(ts[i] == pre[i]);
            } else {
                assert(r[k] == b[0]);
                assert(ts[ts.len() - 1] == t);
            }
        }
        assert forall|i: int|
            0 <= i < ts.len() && some_has_id(d, js, #[trigger] ts[i]) implies some_has_id(d, r, ts[i]) by {
            if i < pre.len() {
                assert(ts[i] == pre[i]);
                assert(some_has_id(d, a, pre[i]));
                let k = choose|k: int| 0 <= k < a.len() && #[trigger] has_id(d, a[k] as int, pre[i]);
                assert(r[k] == a[k]);
            } else {
                assert(ts[i] == t);
                assert(r[a.len() as int] == b[0]);
            }
        }
    }
}


/// The tokens of strings are the tokens of each of them.
proof fn lemma_all_tokens_members(ss: Seq<Seq<char>>)
    ensures
        forall|t: Seq<char>| #[trigger] all_tokens(ss).contains(t) ==> exists|i: int, j: int|
            0 <= i < ss.len() && 0 <= j < ws_tokens(ss[i]).len() && #[trigger] ws_tokens(ss[i])[j]
                == t,
        forall|i: int, j: int|
            0 <= i < ss.len() && 0 <= j < ws_tokens(ss[i]).len() ==> all_tokens(ss).contains(
                #[trigger] ws_tokens(ss[i])[j],
            ),
    decreases ss.len(),
{
    if ss.len() > 0 {
        let pre = ss.drop_last();
        lemma_all_tokens_members(pre);
        let a = all_tokens(pre);
        let b = ws_tokens(ss.last());
        assert(all_tokens(ss) == a + b);
        assert forall|t: Seq<char>| #[trigger] all_tokens(ss).contains(t) implies exists|i: int, j: int|
            0 <= i < ss.len() && 0 <= j < ws_tokens(ss[i]).len() && #[trigger] ws_tokens(ss[i])[j]
                == t by {
            let k = choose|k: int| 0 <= k < (a + b).len() && (a + b)[k] == t;
            if k < a.len() {
                assert(a.contains(t));
                let (i, j) = choose|i: int, j: int|
                    0 <= i < pre.len() && 0 <= j < ws_tokens(pre[i]).len() && #[trigger] ws_tokens(
                        pre[i],
                    )[j] == t;
                assert(ss[i] == pre[i]);
            } else {
                assert(ss[ss.len() - 1] == ss.last());
                assert(ws_tokens(ss[ss.len() - 1])[k - a.len()] == t);
            }
        }
        assert forall|i: int, j: int|
            0 <= i < ss.len() && 0 <= j < ws_tokens(ss[i]).len() implies all_tokens(ss).contains(
                #[trigger] ws_tokens(ss[i])[j],
            ) by {
            if i < pre.len() {
                assert(ss[i] == pre[i]);
                assert(a.contains(ws_tokens(pre[i])[j]));
                let k = choose|k: int| 0 <= k < a.len() && a[k] == ws_tokens(pre[i])[j];
                assert((a + b)[k] == a[k]);
            } else {
                assert((a + b)[a.len() + j] == b[j]);
            }
        }
    }
}

/// Every node `id()` gives has an ID equal to a token of one of the
/// strings.
#[verifier::spinoff_prover]
#[verifier::rlimit(40)]
proof fn lemma_xpath_id_sound(d: Seq<NodeView>, ss: Seq<Seq<char>>, x: usize)
    requires
        0 < d.len() <= usize::MAX,
        in_document_order(d.len() as int, elements_with_ids(d, all_tokens(ss))).contains(x),
    ensures
        exists|i: int, j: int|
            0 <= i < ss.len() && 0 <= j < ws_tokens(ss[i]).len() && has_id(
                d,
                x as int,
                #[trigger] ws_tokens(ss[i])[j],
            ),
{
    let ts = all_tokens(ss);
    let e = elements_with_ids(d, ts);
    law_id_elements(d, ts);
    lemma_all_tokens_members(ss);
    law_document_order_members(d.len() as int, e);
    let k = choose|k: int| 0 <= k < e.len() && e[k] == x;
    assert(descendant_or_self_axis(d, 0).contains(e[k]));
    let i0 = choose|i: int| 0 <= i < ts.len() && has_id(d, e[k] as int, #[trigger] ts[i]);
    assert(ts.contains(ts[i0]));
    let (i, j) = choose|i: int, j: int|
        0 <= i < ss.len() && 0 <= j < ws_tokens(ss[i]).len() && #[trigger] ws_tokens(ss[i])[j]
            == ts[i0];
    assert(has_id(d, x as int, ws_tokens(ss[i])[j]));
}

/// A token of one of the strings that some node has as ID is found.
#[verifier::spinoff_prover]
#[verifier::rlimit(40)]
proof fn lemma_xpath_id_complete(d: Seq<NodeView>, ss: Seq<Seq<char>>, i: int, j: int)
    requires
        0 < d.len() <= usize::MAX,
        0 <= i < ss.len(),
        0 <= j < ws_tokens(ss[i]).len(),
        some_has_id(d, descendant_or_self_axis(d, 0), ws_tokens(ss[i])[j]),
    ensures
        some_has_id(
            d,
            in_document_order(d.len() as int, elements_with_ids(d, all_tokens(ss))),
            ws_tokens(ss[i])[j],
        ),
{
    let ts = all_tokens(ss);
    let e = elements_with_ids(d, ts);
    let r = in_document_order(d.len() as int, e);
    law_id_elements(d, ts);
    lemma_all_tokens_members(ss);
    law_document_order_members(d.len() as int, e);
    let t = ws_tokens(ss[i])[j];
    assert(ts.contains(t));
    let m = choose|m: int| 0 <= m < ts.len() && ts[m] == t;
    assert(some_has_id(d, descendant_or_self_axis(d, 0), ts[m]));
    assert(some_has_id(d, e, ts[m]));
    let k = choose|k: int| 0 <= k < e.len() && #[trigger] has_id(d, e[k] as int, t);
    let x = e[k];
    assert(descendant_or_self_axis(d, 0).contains(x));
    lemma_dos_root_in_range(d, x);
    assert(r.contains(x));
    let q = choose|q: int| 0 <= q < r.len() && r[q] == x;
    assert(has_id(d, r[q] as int, t));
}

/// `id()` of the strings `ss`: every node it gives has an ID attribute
/// equal to a whitespace-separated token of one of the strings, and for
/// every token of every string that some node of the document has as ID,
/// it gives a node with that ID.
pub proof fn law_xpath_id(d: Seq<NodeView>, ss: Seq<Seq<char>>)
    requires
        0 < d.len() <= usize::MAX,
    ensures
        forall|x: usize| #[trigger] in_document_order(
            d.len() as int,
            elements_with_ids(d, all_tokens(ss)),
        ).contains(x) ==> exists|i: int, j: int|
            0 <= i < ss.len() && 0 <= j < ws_tokens(ss[i]).len() && has_id(
                d,
                x as int,
                #[trigger] ws_tokens(ss[i])[j],
            ),
        forall|i: int, j: int|
            0 <= i < ss.len() && 0 <= j < ws_tokens(ss[i]).len() && some_has_id(
                d,
                descendant_or_self_axis(d, 0),
                #[trigger] ws_tokens(ss[i])[j],
            ) ==> some_has_id(
                d,
                in_document_order(d.len() as int, elements_with_ids(d, all_tokens(ss))),
                ws_tokens(ss[i])[j],
            ),
{
    assert forall|x: usize| #[trigger] in_document_order(
        d.len() as int,
        elements_with_ids(d, all_tokens(ss)),
    ).contains(x) implies exists|i: int, j: int|
        0 <= i < ss.len() && 0 <= j < ws_tokens(ss[i]).len() && has_id(
            d,
            x as int,
            #[trigger] ws_tokens(ss[i])[j],
        ) by {
        lemma_xpath_id_sound(d, ss, x);
    }
    assert forall|i: int, j: int|
        0 <= i < ss.len() && 0 <= j < ws_tokens(ss[i]).len() && some_has_id(
            d,
            descendant_or_self_axis(d, 0),
            #[trigger] ws_tokens(ss[i])[j],
        ) implies some_has_id(
        d,
        in_document_order(d.len() as int, elements_with_ids(d, all_tokens(ss))),
        ws_tokens(ss[i])[j],
    ) by {
        lemma_xpath_id_complete(d, ss, i, j);
    }
}

/// The root's descendant-or-self axis holds nodes of the document.
proof fn lemma_dos_root_in_range(d: Seq<NodeView>, x: usize)
    requires
        0 < d.len() <= usize::MAX,
        descendant_or_self_axis(d, 0).contains(x),
    ensures
        x < d.len(),
{
    let s = descendant_or_self_axis(d, 0);
    let k = choose|k: int| 0 <= k < s.len() && s[k] == x;
    if k > 0 {
        let dd = crate::axes::descendant_axis(d, 0);
        assert(s[k] == dd[k - 1]);
        crate::seqs::lemma_select(1, d.len() as int, crate::axes::descendant_pred(d, 0));
    }
}


/// `translate()` maps each character on its own, the first occurrence of a
/// character in `from` deciding: `c` at position `|x|` of `from = x c y`,
/// with `c` not in `x`, becomes the character at the same position of `to`,
/// or nothing when `to` is shorter; a character not in `from` stays.
pub proof fn law_translate(
    s1: Seq<char>,
    s2: Seq<char>,
    x: Seq<char>,
    c: char,
    y: Seq<char>,
    to: Seq<char>,
    e: char,
)
    requires
        !x.contains(c),
        !(x + seq![c] + y).contains(e),
    ensures
        translated(s1 + s2, x + seq![c] + y, to) == translated(s1, x + seq![c] + y, to) + translated(
            s2,
            x + seq![c] + y,
            to,
        ),
        translated(seq![c], x + seq![c] + y, to) == (if x.len() < to.len() {
            seq![to[x.len() as int]]
        } else {
            Seq::<char>::empty()
        }),
        translated(seq![e], x + seq![c] + y, to) == seq![e],
{
    let from = x + seq![c] + y;
    lemma_translated_concat(s1, s2, from, to);
    assert forall|k: int| 0 <= k < x.len() implies from[k] != c by {
        assert(from[k] == x[k]);
        if from[k] == c {
            assert(x.contains(c));
        }
    }
    assert(from[x.len() as int] == c);
    lemma_first_index(from, c, x.len() as int);
    assert forall|k: int| 0 <= k < from.len() implies from[k] != e by {
        if from[k] == e {
            assert(from.contains(e));
        }
    }
    lemma_first_index(from, e, from.len() as int);
    assert(seq![c].drop_last() =~= Seq::<char>::empty());
    assert(seq![e].drop_last() =~= Seq::<char>::empty());
    assert(seq![c].last() == c);
    assert(translated(seq![c], from, to) == translated(seq![c].drop_last(), from, to)
        + translate_char(c, from, to));
    assert(translated(Seq::<char>::empty(), from, to) == Seq::<char>::empty());
    assert(translated(seq![c], from, to) =~= translate_char(c, from, to));
    assert(translated(seq![e], from, to) =~= translate_char(e, from, to));
}

proof fn lemma_translated_concat(s1: Seq<char>, s2: Seq<char>, from: Seq<char>, to: Seq<char>)
    ensures
        translated(s1 + s2, from, to) == translated(s1, from, to) + translated(s2, from, to),
    decreases s2.len(),
{
    if s2.len() == 0 {
        assert(s1 + s2 =~= s1);
        assert(translated(s1, from, to) + Seq::<char>::empty() =~= translated(s1, from, to));
    } else {
        lemma_translated_concat(s1, s2.drop_last(), from, to);
        assert((s1 + s2).drop_last() =~= s1 + s2.drop_last());
        assert((s1 + s2).last() == s2.last());
        assert(translated(s1, from, to) + translated(s2.drop_last(), from, to) + translate_char(
            s2.last(),
            from,
            to,
        ) =~= translated(s1, from, to) + (translated(s2.drop_last(), from, to) + translate_char(
            s2.last(),
            from,
            to,
        )));
    }
}


/// A string with no XML whitespace.
pub open spec fn ws_free(t: Seq<char>) -> bool {
    forall|m: int| 0 <= m < t.len() ==> !is_xml_ws(#[trigger] t[m])
}

proof fn lemma_word_len_concat(a: Seq<char>, x: Seq<char>)
    ensures
        word_len(a) < a.len() ==> word_len(a + x) == word_len(a),
        word_len(a) == a.len() ==> word_len(a + x) == a.len() + word_len(x),
    decreases a.len(),
{
    lemma_word_len(a);
    if a.len() > 0 && !is_xml_ws(a[0]) {
        lemma_word_len_concat(a.drop_first(), x);
        assert((a + x).drop_first() =~= a.drop_first() + x);
    } else if a.len() == 0 {
        assert(a + x =~= x);
    }
}

/// A word alone is its one token; whitespace before a text adds no token.
proof fn lemma_ws_tokens_word(t: Seq<char>, w: char, r: Seq<char>)
    requires
        is_xml_ws(w),
    ensures
        t.len() > 0 && ws_free(t) ==> ws_tokens(t) == seq![t],
        ws_tokens(seq![w] + r) == ws_tokens(r),
{
    assert((seq![w] + r).drop_first() =~= r);
    if t.len() > 0 && ws_free(t) {
        lemma_word_len_concat(t, Seq::empty());
        assert(t + Seq::<char>::empty() =~= t);
        assert(word_len(t) == t.len()) by {
            lemma_word_len(t);
            if word_len(t) < t.len() {
                assert(is_xml_ws(t[word_len(t) as int]));
            }
        }
        assert(t.take(t.len() as int) =~= t);
        assert(t.skip(t.len() as int) =~= Seq::<char>::empty());
        assert(!is_xml_ws(t[0]));
        assert(ws_tokens(t) == seq![t.take(word_len(t) as int)] + ws_tokens(
            t.skip(word_len(t) as int),
        ));
        assert(ws_tokens(Seq::<char>::empty()) == Seq::<Seq<char>>::empty());
        assert(seq![t] + Seq::<Seq<char>>::empty() =~= seq![t]);
    }
}

/// Whitespace splits a text into the tokens before it and those after it.
proof fn lemma_ws_tokens_split(a: Seq<char>, w: char, b: Seq<char>)
    requires
        is_xml_ws(w),
    ensures
        ws_tokens(a + seq![w] + b) == ws_tokens(a) + ws_tokens(b),
    decreases a.len(),
{
    let s = a + seq![w] + b;
    lemma_word_len(a);
    if a.len() == 0 {
        assert(s =~= seq![w] + b);
        lemma_ws_tokens_word(a, w, b);
        assert(Seq::<Seq<char>>::empty() + ws_tokens(b) =~= ws_tokens(b));
    } else if is_xml_ws(a[0]) {
        lemma_ws_tokens_split(a.drop_first(), w, b);
        assert(s.drop_first() =~= a.drop_first() + seq![w] + b);
    } else {
        let wl = word_len(a) as int;
        lemma_word_len_concat(a, seq![w] + b);
        assert(s =~= a + (seq![w] + b));
        if wl < a.len() {
            lemma_ws_tokens_split(a.skip(wl), w, b);
            assert(s.take(wl) =~= a.take(wl));
            assert(s.skip(wl) =~= a.skip(wl) + seq![w] + b);
            assert(seq![a.take(wl)] + (ws_tokens(a.skip(wl)) + ws_tokens(b)) =~= seq![a.take(wl)]
                + ws_tokens(a.skip(wl)) + ws_tokens(b));
        } else {
            lemma_word_len(seq![w] + b);
            assert(word_len(seq![w] + b) == 0);
            assert(s.take(wl) =~= a);
            assert(s.skip(wl) =~= seq![w] + b);
            lemma_ws_tokens_word(a, w, b);
            assert(a.take(wl) =~= a);
            assert(a.skip(wl) =~= Seq::<char>::empty());
            assert(ws_tokens(a) == seq![a] + ws_tokens(Seq::<char>::empty()));
            assert(seq![a] + Seq::<Seq<char>>::empty() =~= seq![a]);
        }
    }
}

/// The tokens of a text are its runs of characters other than XML
/// whitespace: none for the empty text, a text with no whitespace is its
/// one token (if not empty), and a whitespace character splits a text into
/// the tokens before it and those after it. So every token is non-empty
/// and free of whitespace.
pub proof fn law_ws_tokens(a: Seq<char>, w: char, b: Seq<char>)
    ensures
        ws_tokens(Seq::empty()) == Seq::<Seq<char>>::empty(),
        a.len() > 0 && ws_free(a) ==> ws_tokens(a) == seq![a],
        is_xml_ws(w) ==> ws_tokens(a + seq![w] + b) == ws_tokens(a) + ws_tokens(b),
        forall|k: int|
            0 <= k < ws_tokens(a).len() ==> (#[trigger] ws_tokens(a)[k]).len() > 0 && ws_free(
                ws_tokens(a)[k],
            ),
{
    lemma_ws_tokens_word(a, ' ', b);
    if is_xml_ws(w) {
        lemma_ws_tokens_split(a, w, b);
    }
    lemma_ws_tokens_parts(a);
}

proof fn lemma_ws_tokens_parts(a: Seq<char>)
    ensures
        forall|k: int|
            0 <= k < ws_tokens(a).len() ==> (#[trigger] ws_tokens(a)[k]).len() > 0 && ws_free(
                ws_tokens(a)[k],
            ),
    decreases a.len(),
{
    if a.len() > 0 {
        lemma_word_len(a);
        if is_xml_ws(a[0]) {
            lemma_ws_tokens_parts(a.drop_first());
            assert(ws_tokens(a) == ws_tokens(a.drop_first()));
        } else {
            let wl = word_len(a) as int;
            assert(wl >= 1);
            lemma_ws_tokens_parts(a.skip(wl));
            let ts = ws_tokens(a);
            assert(ts == seq![a.take(wl)] + ws_tokens(a.skip(wl)));
            assert forall|k: int| 0 <= k < ts.len() implies (#[trigger] ts[k]).len() > 0 && ws_free(
                ts[k],
            ) by {
                if k == 0 {
                    assert forall|m: int| 0 <= m < a.take(wl).len() implies !is_xml_ws(
                        #[trigger] a.take(wl)[m],
                    ) by {
                        assert(a.take(wl)[m] == a[m]);
                    }
                } else {
                    assert(ts[k] == ws_tokens(a.skip(wl))[k - 1]);
                }
            }
        }
    }
}


/// `normalize-space()` puts single spaces between tokens and nothing else:
/// the joined tokens of two non-empty lists are the first list joined, a
/// space, and the second joined; one token is itself; none is empty.
pub proof fn law_join_words(ts: Seq<Seq<char>>, us: Seq<Seq<char>>, t: Seq<char>)
    ensures
        join_words(Seq::empty()) == Seq::<char>::empty(),
        join_words(seq![t]) == t,
        ts.len() > 0 && us.len() > 0 ==> join_words(ts + us) == join_words(ts) + seq![' ']
            + join_words(us),
    decreases us.len(),
{
    if ts.len() > 0 && us.len() > 0 {
        if us.len() == 1 {
            assert((ts + us).drop_last() =~= ts);
            assert((ts + us).last() == us[0]);
        } else {
            law_join_words(ts, us.drop_last(), t);
            assert((ts + us).drop_last() =~= ts + us.drop_last());
            assert((ts + us).last() == us.last());
            assert(join_words(ts) + seq![' '] + join_words(us.drop_last()) + seq![' '] + us.last()
                =~= join_words(ts) + seq![' '] + (join_words(us.drop_last()) + seq![' '] + us.last()));
        }
    }
}


/// The namespace node `x` binds a non-empty prefix to `uri`.
pub open spec fn binds_prefix_to(d: Seq<NodeView>, x: usize, uri: Seq<char>) -> bool {
    d[x as int].text == uri && (d[x as int].name matches Some(nm) && nm.local_name.len() > 0)
}

proof fn lemma_first_prefix_for(d: Seq<NodeView>, nss: Seq<usize>, uri: Seq<char>)
    ensures
        first_prefix_for(d, nss, uri) matches Some(p) ==> exists|k: int|
            0 <= k < nss.len() && #[trigger] binds_prefix_to(d, nss[k], uri)
                && d[nss[k] as int].name.unwrap().local_name == p && forall|j: int|
                0 <= j < k ==> !#[trigger] binds_prefix_to(d, nss[j], uri),
        first_prefix_for(d, nss, uri) is None ==> forall|k: int|
            0 <= k < nss.len() ==> !#[trigger] binds_prefix_to(d, nss[k], uri),
    decreases nss.len(),
{
    if nss.len() > 0 {
        let t = nss.drop_first();
        lemma_first_prefix_for(d, t, uri);
        if binds_prefix_to(d, nss[0], uri) {
            assert(binds_prefix_to(d, nss[0], uri));
        } else {
            if let Some(p) = first_prefix_for(d, t, uri) {
                let k = choose|k: int|
                    0 <= k < t.len() && #[trigger] binds_prefix_to(d, t[k], uri)
                        && d[t[k] as int].name.unwrap().local_name == p && forall|j: int|
                        0 <= j < k ==> !#[trigger] binds_prefix_to(d, t[j], uri);
                assert(nss[k + 1] == t[k]);
                assert forall|j: int| 0 <= j < k + 1 implies !#[trigger] binds_prefix_to(
                    d,
                    nss[j],
                    uri,
                ) by {
                    if j > 0 {
                        assert(nss[j] == t[j - 1]);
                    }
                }
            } else {
                assert forall|k: int| 0 <= k < nss.len() implies !#[trigger] binds_prefix_to(
                    d,
                    nss[k],
                    uri,
                ) by {
                    if k > 0 {
                        assert(nss[k] == t[k - 1]);
                    }
                }
            }
        }
    }
}

/// `name()` of a node whose name has the namespace URI `uri`: the local
/// name alone where no namespace node of its element (the owner element,
/// for an attribute) binds a non-empty prefix to `uri`; otherwise the
/// prefix of the first namespace node that does, ':' and the local name.
pub proof fn law_name_prefix(d: Seq<NodeView>, m: usize, o: usize, en: NameView, uri: Seq<char>)
    requires
        m < d.len(),
        d[m as int].name == Some(en),
        en.namespace_uri == Some(uri),
        d[m as int].kind == NodeKind::Attribute ==> d[m as int].parent == Some(o),
        d[m as int].kind != NodeKind::Attribute ==> o == m,
    ensures
        (forall|k: int|
            0 <= k < namespace_axis(d, o as int).len() ==> !#[trigger] binds_prefix_to(
                d,
                namespace_axis(d, o as int)[k],
                uri,
            )) ==> qname_of(d, m as int) == en.local_name,
        qname_of(d, m as int) != en.local_name ==> exists|k: int|
            0 <= k < namespace_axis(d, o as int).len() && #[trigger] binds_prefix_to(
                d,
                namespace_axis(d, o as int)[k],
                uri,
            ) && qname_of(d, m as int) == d[namespace_axis(d, o as int)[k] as int].name.unwrap().local_name
                + seq![':'] + en.local_name && forall|j: int|
                0 <= j < k ==> !#[trigger] binds_prefix_to(d, namespace_axis(d, o as int)[j], uri),
{
    let nss = namespace_axis(d, o as int);
    lemma_first_prefix_for(d, nss, uri);
    match first_prefix_for(d, nss, uri) {
        Some(p) => {
            let k = choose|k: int|
                0 <= k < nss.len() && #[trigger] binds_prefix_to(d, nss[k], uri)
                    && d[nss[k] as int].name.unwrap().local_name == p && forall|j: int|
                    0 <= j < k ==> !#[trigger] binds_prefix_to(d, nss[j], uri);
            assert(qname_of(d, m as int) == p + seq![':'] + en.local_name);
        },
        None => {},
    }
}

} // verus!
