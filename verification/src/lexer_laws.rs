//! Laws of the tokenizer: what comes before a point of the text does not
//! change how the text after it is read, except through the token just
//! before (which decides whether an operand is due).
use vstd::prelude::*;
use crate::functions::first_index;
use crate::lexer::{
    byte_pos, char_at, digits_end, lemma_runs, lemma_scan_progress, lex_from, name_chars_end,
    ncname_end, operand_follows, qname_at, scan, scan_name, scan_number, ws_end, Scanned,
    TokenView,
};
use crate::parser::{error_at, ErrorView};

verus! {

/// An error moved `b` bytes further into the text.
pub open spec fn error_moved(e: ErrorView, b: int) -> ErrorView {
    error_at(e.position + b, e.message)
}

/// A scanned token with its end index moved by `p`, or an error moved by
/// `b` bytes.
pub open spec fn scan_moved(r: Scanned, p: int, b: int) -> Scanned {
    match r {
        Ok((t, k)) => Ok((t, k + p)),
        Err(e) => Err(error_moved(e, b)),
    }
}

/// Tokens with their byte offsets moved by `b`.
pub open spec fn tokens_moved(ts: Seq<(TokenView, int)>, b: int) -> Seq<(TokenView, int)> {
    Seq::new(ts.len(), |k: int| (ts[k].0, ts[k].1 + b))
}

/// A tokenization with every byte offset, of a token or of the error,
/// moved by `b`.
pub open spec fn lexed_moved(r: Result<Seq<(TokenView, int)>, ErrorView>, b: int) -> Result<
    Seq<(TokenView, int)>,
    ErrorView,
> {
    match r {
        Ok(ts) => Ok(tokens_moved(ts, b)),
        Err(e) => Err(error_moved(e, b)),
    }
}

proof fn lemma_rest_chars(cs: Seq<char>, p: int, x: Seq<char>)
    requires
        0 <= p <= cs.len(),
        cs.skip(p) == x,
    ensures
        cs.len() == p + x.len(),
        forall|k: int| 0 <= k < x.len() ==> #[trigger] x[k] == cs[p + k],
        forall|i: int| 0 <= i ==> #[trigger] char_at(x, i) == char_at(cs, p + i),
{
    assert forall|k: int| 0 <= k < x.len() implies #[trigger] x[k] == cs[p + k] by {
        assert(cs.skip(p)[k] == cs[p + k]);
    }
}

proof fn lemma_runs_after(cs: Seq<char>, p: int, x: Seq<char>, k: int)
    requires
        0 <= p <= cs.len(),
        cs.skip(p) == x,
        0 <= k <= x.len(),
    ensures
        ws_end(cs, p + k) == p + ws_end(x, k),
        digits_end(cs, p + k) == p + digits_end(x, k),
        name_chars_end(cs, p + k) == p + name_chars_end(x, k),
    decreases x.len() - k,
{
    lemma_rest_chars(cs, p, x);
    if k < x.len() {
        lemma_runs_after(cs, p, x, k + 1);
        assert(x[k] == cs[p + k]);
    }
}

proof fn lemma_byte_pos_after(cs: Seq<char>, p: int, x: Seq<char>, k: int)
    requires
        0 <= p <= cs.len(),
        cs.skip(p) == x,
        0 <= k <= x.len(),
    ensures
        byte_pos(cs, p + k) == byte_pos(cs, p) + byte_pos(x, k),
    decreases k,
{
    lemma_rest_chars(cs, p, x);
    if k > 0 {
        lemma_byte_pos_after(cs, p, x, k - 1);
        assert(x[k - 1] == cs[p + k - 1]);
    }
}

proof fn lemma_subrange_after(cs: Seq<char>, p: int, x: Seq<char>, a: int, b: int)
    requires
        0 <= p <= cs.len(),
        cs.skip(p) == x,
        0 <= a <= b <= x.len(),
    ensures
        cs.subrange(p + a, p + b) == x.subrange(a, b),
{
    lemma_rest_chars(cs, p, x);
    assert(cs.subrange(p + a, p + b) =~= x.subrange(a, b));
}

/// A name token reads the same after a prefix.
#[verifier::spinoff_prover]
#[verifier::rlimit(40)]
proof fn lemma_scan_name_after(cs: Seq<char>, p: int, x: Seq<char>, j: int, operand: bool)
    requires
        0 <= p <= cs.len(),
        cs.skip(p) == x,
        0 <= j < x.len(),
    ensures
        scan_name(cs, p + j, operand) == ({
            let (t, k) = scan_name(x, j, operand);
            (t, k + p)
        }),
        qname_at(cs, p + j) == ({
            let (pr, l, k) = qname_at(x, j);
            (pr, l, k + p)
        }),
{
    lemma_rest_chars(cs, p, x);
    lemma_runs(x, j + 1);
    lemma_runs_after(cs, p, x, j + 1);
    let e1 = ncname_end(x, j);
    assert(ncname_end(cs, p + j) == p + e1);
    lemma_subrange_after(cs, p, x, j, e1);
    if e1 + 2 <= x.len() {
        lemma_runs(x, e1 + 2);
        lemma_runs_after(cs, p, x, e1 + 2);
        let e2 = ncname_end(x, e1 + 1);
        lemma_subrange_after(cs, p, x, e1 + 1, e2);
    }
    if e1 + 1 < x.len() {
        assert(x[e1 + 1] == cs[p + e1 + 1]);
    }
}

/// A number reads the same after a prefix.
proof fn lemma_scan_number_after(cs: Seq<char>, p: int, x: Seq<char>, j: int)
    requires
        0 <= p <= cs.len(),
        cs.skip(p) == x,
        0 <= j < x.len(),
    ensures
        scan_number(cs, p + j) == ({
            let (t, k) = scan_number(x, j);
            (t, k + p)
        }),
{
    lemma_rest_chars(cs, p, x);
    lemma_runs(x, j);
    lemma_runs_after(cs, p, x, j);
    let a = digits_end(x, j);
    if a + 1 <= x.len() {
        lemma_runs(x, a + 1);
        lemma_runs_after(cs, p, x, a + 1);
    }
    let b = if char_at(x, a) == Some('.') {
        digits_end(x, a + 1)
    } else {
        a
    };
    lemma_subrange_after(cs, p, x, j, b);
}

/// A token reads the same after a prefix: its end moves with the prefix,
/// an error by the prefix's bytes.
#[verifier::spinoff_prover]
#[verifier::rlimit(60)]
proof fn lemma_scan_after(cs: Seq<char>, p: int, x: Seq<char>, j: int, operand: bool)
    requires
        0 <= p <= cs.len(),
        cs.skip(p) == x,
        0 <= j < x.len(),
    ensures
        scan(cs, p + j, operand) == scan_moved(scan(x, j, operand), p, byte_pos(cs, p)),
{
    lemma_rest_chars(cs, p, x);
    lemma_byte_pos_after(cs, p, x, j);
    assert(x[j] == cs[p + j]);
    if j + 1 < x.len() {
        assert(x[j + 1] == cs[p + j + 1]);
    }
    lemma_scan_name_after(cs, p, x, j, operand);
    if j + 1 < x.len() {
        lemma_scan_name_after(cs, p, x, j + 1, operand);
    }
    lemma_scan_number_after(cs, p, x, j);
    if x[j] == '\'' || x[j] == '"' {
        assert(cs.skip(p + j + 1) =~= x.skip(j + 1));
        match first_index(x.skip(j + 1), x[j]) {
            Some(k) => {
                crate::lexer::lemma_first_index_bound(x.skip(j + 1), x[j]);
                lemma_subrange_after(cs, p, x, j + 1, j + 1 + k);
            },
            None => {},
        }
    }
}

/// Lexing from a point after a prefix is lexing the rest of the text on
/// its own, every byte offset moved by the prefix's bytes.
#[verifier::spinoff_prover]
#[verifier::rlimit(40)]
proof fn lemma_lex_after(cs: Seq<char>, p: int, x: Seq<char>, i: int, prev: Option<TokenView>)
    requires
        0 <= p <= cs.len(),
        cs.skip(p) == x,
        0 <= i <= x.len(),
    ensures
        lex_from(cs, p + i, prev) == lexed_moved(lex_from(x, i, prev), byte_pos(cs, p)),
    decreases x.len() - i,
{
    lemma_rest_chars(cs, p, x);
    lemma_runs(x, i);
    lemma_runs_after(cs, p, x, i);
    let b = byte_pos(cs, p);
    let j = ws_end(x, i);
    if j >= x.len() {
        assert(tokens_moved(Seq::<(TokenView, int)>::empty(), b) =~= Seq::<(TokenView, int)>::empty());
    } else {
        let op = operand_follows(prev);
        lemma_scan_after(cs, p, x, j, op);
        lemma_scan_progress(x, j, op);
        lemma_byte_pos_after(cs, p, x, j);
        match scan(x, j, op) {
            Err(e) => {},
            Ok((t, k)) => {
                lemma_lex_after(cs, p, x, k, Some(t));
                match lex_from(x, k, Some(t)) {
                    Err(e) => {},
                    Ok(rest) => {
                        let head = seq![(t, byte_pos(x, j))];
                        assert(tokens_moved(head + rest, b) =~= seq![(t, byte_pos(cs, p + j))]
                            + tokens_moved(rest, b));
                    },
                }
            },
        }
    }
}

/// Where a token ends at index `p`, the tokens after it are those of the
/// rest of the text read on its own, after the same token, with their byte
/// offsets (and any error's) moved by the bytes before `p`.
pub proof fn law_lex_rest(cs: Seq<char>, p: int, prev: Option<TokenView>)
    requires
        0 <= p <= cs.len(),
    ensures
        lex_from(cs, p, prev) == lexed_moved(lex_from(cs.skip(p), 0, prev), byte_pos(cs, p)),
{
    lemma_lex_after(cs, p, cs.skip(p), 0, prev);
}

} // verus!
