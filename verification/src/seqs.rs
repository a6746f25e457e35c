//! Index selections: the increasing (and decreasing) sequence of all indices
//! in a range that satisfy a predicate, with the facts the axes rely on.
use vstd::prelude::*;

verus! {

/// The indices `lo <= i < hi` with `p(i)`, in increasing order.
pub open spec fn select(lo: int, hi: int, p: spec_fn(int) -> bool) -> Seq<usize>
    decreases hi - lo,
{
    if hi <= lo {
        Seq::empty()
    } else {
        select(lo, hi - 1, p) + (if p(hi - 1) {
            seq![(hi - 1) as usize]
        } else {
            Seq::empty()
        })
    }
}

/// The indices `lo <= i < hi` with `p(i)`, in decreasing order.
pub open spec fn select_desc(lo: int, hi: int, p: spec_fn(int) -> bool) -> Seq<usize>
    decreases hi - lo,
{
    if hi <= lo {
        Seq::empty()
    } else {
        select_desc(lo + 1, hi, p) + (if p(lo) {
            seq![lo as usize]
        } else {
            Seq::empty()
        })
    }
}

/// A sequence of indices in strictly increasing order.
pub open spec fn increasing(s: Seq<usize>) -> bool {
    forall|i: int, j: int| 0 <= i < j < s.len() ==> s[i] < s[j]
}

/// A sequence of indices in strictly decreasing order.
pub open spec fn decreasing(s: Seq<usize>) -> bool {
    forall|i: int, j: int| 0 <= i < j < s.len() ==> s[i] > s[j]
}

/// What a selection holds, and that it is ordered.
pub proof fn lemma_select(lo: int, hi: int, p: spec_fn(int) -> bool)
    requires
        0 <= lo,
        hi <= usize::MAX + 1,
    ensures
        forall|k: int|
            0 <= k < select(lo, hi, p).len() ==> lo <= #[trigger] select(lo, hi, p)[k] < hi && p(
                select(lo, hi, p)[k] as int,
            ),
        forall|x: int| lo <= x < hi && p(x) ==> #[trigger] select(lo, hi, p).contains(x as usize),
        forall|x: usize| #[trigger] select(lo, hi, p).contains(x) ==> lo <= x < hi && p(x as int),
        increasing(select(lo, hi, p)),
    decreases hi - lo,
{
    if hi > lo {
        lemma_select(lo, hi - 1, p);
        let s = select(lo, hi - 1, p);
        let t = select(lo, hi, p);
        assert forall|x: int| lo <= x < hi && p(x) implies #[trigger] t.contains(x as usize) by {
            if x == hi - 1 {
                assert(t[t.len() - 1] == x as usize);
            } else {
                assert(s.contains(x as usize));
                let k = choose|k: int| 0 <= k < s.len() && s[k] == x as usize;
                assert(t[k] == x as usize);
            }
        }
        assert forall|x: usize| #[trigger] t.contains(x) implies lo <= x < hi && p(x as int) by {
            let k = choose|k: int| 0 <= k < t.len() && t[k] == x;
            if k < s.len() {
                assert(s[k] == x);
            }
        }
    }
}

/// What a descending selection holds, and that it is ordered.
pub proof fn lemma_select_desc(lo: int, hi: int, p: spec_fn(int) -> bool)
    requires
        0 <= lo,
        hi <= usize::MAX + 1,
    ensures
        forall|k: int|
            0 <= k < select_desc(lo, hi, p).len() ==> lo <= #[trigger] select_desc(lo, hi, p)[k]
                < hi && p(select_desc(lo, hi, p)[k] as int),
        forall|x: int|
            lo <= x < hi && p(x) ==> #[trigger] select_desc(lo, hi, p).contains(x as usize),
        forall|x: usize| #[trigger]
            select_desc(lo, hi, p).contains(x) ==> lo <= x < hi && p(x as int),
        decreasing(select_desc(lo, hi, p)),
    decreases hi - lo,
{
    if hi > lo {
        lemma_select_desc(lo + 1, hi, p);
        let s = select_desc(lo + 1, hi, p);
        let t = select_desc(lo, hi, p);
        assert forall|x: int| lo <= x < hi && p(x) implies #[trigger] t.contains(x as usize) by {
            if x == lo {
                assert(t[t.len() - 1] == x as usize);
            } else {
                assert(s.contains(x as usize));
                let k = choose|k: int| 0 <= k < s.len() && s[k] == x as usize;
                assert(t[k] == x as usize);
            }
        }
        assert forall|x: usize| #[trigger] t.contains(x) implies lo <= x < hi && p(x as int) by {
            let k = choose|k: int| 0 <= k < t.len() && t[k] == x;
            if k < s.len() {
                assert(s[k] == x);
            }
        }
    }
}

/// Selections by predicates that agree on the range are equal.
pub proof fn lemma_select_ext(lo: int, hi: int, p: spec_fn(int) -> bool, q: spec_fn(int) -> bool)
    requires
        forall|x: int| lo <= x < hi ==> #[trigger] p(x) == q(x),
    ensures
        select(lo, hi, p) == select(lo, hi, q),
    decreases hi - lo,
{
    if hi > lo {
        lemma_select_ext(lo, hi - 1, p, q);
    }
}

/// Descending selections by predicates that agree on the range are equal.
pub proof fn lemma_select_desc_ext(
    lo: int,
    hi: int,
    p: spec_fn(int) -> bool,
    q: spec_fn(int) -> bool,
)
    requires
        forall|x: int| lo <= x < hi ==> #[trigger] p(x) == q(x),
    ensures
        select_desc(lo, hi, p) == select_desc(lo, hi, q),
    decreases hi - lo,
{
    if hi > lo {
        lemma_select_desc_ext(lo + 1, hi, p, q);
    }
}

/// A selection over a range where nothing qualifies is empty.
pub proof fn lemma_select_none(lo: int, hi: int, p: spec_fn(int) -> bool)
    requires
        forall|x: int| lo <= x < hi ==> !#[trigger] p(x),
    ensures
        select(lo, hi, p) == Seq::<usize>::empty(),
    decreases hi - lo,
{
    if hi > lo {
        lemma_select_none(lo, hi - 1, p);
    }
}

/// Nothing qualifies at the top of the range: the selection stops below it.
pub proof fn lemma_select_shrink_hi(lo: int, mid: int, hi: int, p: spec_fn(int) -> bool)
    requires
        lo <= mid <= hi,
        forall|x: int| mid <= x < hi ==> !#[trigger] p(x),
    ensures
        select(lo, hi, p) == select(lo, mid, p),
    decreases hi - mid,
{
    if hi > mid {
        lemma_select_shrink_hi(lo, mid, hi - 1, p);
    }
}

/// Nothing qualifies at the bottom of the range: the selection starts above it.
pub proof fn lemma_select_shrink_lo(lo: int, mid: int, hi: int, p: spec_fn(int) -> bool)
    requires
        lo <= mid,
        forall|x: int| lo <= x < mid && x < hi ==> !#[trigger] p(x),
    ensures
        select(lo, hi, p) == select(mid, hi, p),
    decreases hi - lo,
{
    if hi > lo {
        if hi - 1 >= mid {
            lemma_select_shrink_lo(lo, mid, hi - 1, p);
        } else {
            lemma_select_none(lo, hi, p);
            lemma_select_none(mid, hi, p);
        }
    }
}

/// Nothing qualifies at the top of the range: the descending selection stops below it.
pub proof fn lemma_select_desc_shrink_hi(lo: int, mid: int, hi: int, p: spec_fn(int) -> bool)
    requires
        mid <= hi,
        forall|x: int| mid <= x < hi && lo <= x ==> !#[trigger] p(x),
    ensures
        select_desc(lo, hi, p) == select_desc(lo, mid, p),
    decreases hi - lo,
{
    if hi > lo {
        if lo < mid {
            lemma_select_desc_shrink_hi(lo + 1, mid, hi, p);
        } else {
            lemma_select_desc_shrink_hi(lo + 1, mid, hi, p);
            assert(select_desc(lo, mid, p) == Seq::<usize>::empty());
        }
    }
}

/// Two predicates, every index of the first below every index of the
/// second: selecting by their disjunction `r` is selecting by the first,
/// then by the second.
pub proof fn lemma_select_split(
    lo: int,
    hi: int,
    p: spec_fn(int) -> bool,
    q: spec_fn(int) -> bool,
    r: spec_fn(int) -> bool,
)
    requires
        forall|x: int| lo <= x < hi ==> #[trigger] r(x) == (p(x) || q(x)),
        forall|x: int| lo <= x < hi ==> !(#[trigger] p(x) && q(x)),
        forall|x: int, y: int| lo <= x < hi && lo <= y < hi && #[trigger] p(x) && #[trigger] q(y) ==> x < y,
    ensures
        select(lo, hi, r) == select(lo, hi, p) + select(lo, hi, q),
    decreases hi - lo,
{
    if hi > lo {
        lemma_select_split(lo, hi - 1, p, q, r);
        if p(hi - 1) {
            lemma_select_none(lo, hi - 1, q);
        }
        assert(select(lo, hi, r) =~= select(lo, hi, p) + select(lo, hi, q));
    }
}

/// The elements of `s` that satisfy `p`, in their order in `s`.
pub open spec fn keep(s: Seq<usize>, p: spec_fn(usize) -> bool) -> Seq<usize>
    decreases s.len(),
{
    if s.len() == 0 {
        Seq::empty()
    } else {
        keep(s.drop_last(), p) + (if p(s.last()) {
            seq![s.last()]
        } else {
            Seq::empty()
        })
    }
}

/// Keeping elements of a prefix one element longer.
pub proof fn lemma_keep_step(s: Seq<usize>, i: int, p: spec_fn(usize) -> bool)
    requires
        0 <= i < s.len(),
    ensures
        keep(s.subrange(0, i + 1), p) == keep(s.subrange(0, i), p) + (if p(s[i]) {
            seq![s[i]]
        } else {
            Seq::empty()
        }),
{
    assert(s.subrange(0, i + 1).drop_last() =~= s.subrange(0, i));
}


/// Keeping the elements of a selection that satisfy `p` selects by both.
pub proof fn lemma_keep_select(
    lo: int,
    hi: int,
    q: spec_fn(int) -> bool,
    p: spec_fn(usize) -> bool,
    r: spec_fn(int) -> bool,
)
    requires
        forall|x: int| lo <= x < hi ==> #[trigger] r(x) == (q(x) && p(x as usize)),
    ensures
        keep(select(lo, hi, q), p) == select(lo, hi, r),
    decreases hi - lo,
{
    if hi > lo {
        lemma_keep_select(lo, hi - 1, q, p, r);
        let s = select(lo, hi - 1, q);
        if q(hi - 1) {
            let t = s + seq![(hi - 1) as usize];
            assert(t.drop_last() =~= s);
            assert(select(lo, hi, q) == t);
        } else {
            assert(select(lo, hi, q) =~= s);
        }
    }
}

/// A descending selection is its top index, if it qualifies, then the
/// descending selection below it.
pub proof fn lemma_select_desc_top(lo: int, hi: int, p: spec_fn(int) -> bool)
    requires
        lo < hi,
    ensures
        select_desc(lo, hi, p) == (if p(hi - 1) {
            seq![(hi - 1) as usize]
        } else {
            Seq::<usize>::empty()
        }) + select_desc(lo, hi - 1, p),
    decreases hi - lo,
{
    if lo + 1 < hi {
        lemma_select_desc_top(lo + 1, hi, p);
        let top = if p(hi - 1) {
            seq![(hi - 1) as usize]
        } else {
            Seq::<usize>::empty()
        };
        let bottom = if p(lo) {
            seq![lo as usize]
        } else {
            Seq::<usize>::empty()
        };
        assert(select_desc(lo, hi, p) == (top + select_desc(lo + 1, hi - 1, p)) + bottom);
        assert(select_desc(lo, hi - 1, p) == select_desc(lo + 1, hi - 1, p) + bottom);
        assert((top + select_desc(lo + 1, hi - 1, p)) + bottom =~= top + (select_desc(
            lo + 1,
            hi - 1,
            p,
        ) + bottom));
    } else {
        assert(select_desc(lo + 1, hi, p) == Seq::<usize>::empty());
        assert(select_desc(lo, hi - 1, p) == Seq::<usize>::empty());
        assert(select_desc(lo, hi, p) =~= (if p(hi - 1) {
            seq![(hi - 1) as usize]
        } else {
            Seq::<usize>::empty()
        }) + Seq::<usize>::empty());
    }
}

/// A selection read backwards is the descending selection.
pub proof fn lemma_select_reverse(lo: int, hi: int, p: spec_fn(int) -> bool)
    ensures
        select(lo, hi, p).reverse() == select_desc(lo, hi, p),
    decreases hi - lo,
{
    if hi > lo {
        lemma_select_reverse(lo, hi - 1, p);
        lemma_select_desc_top(lo, hi, p);
        let a = select(lo, hi - 1, p);
        let b = if p(hi - 1) {
            seq![(hi - 1) as usize]
        } else {
            Seq::<usize>::empty()
        };
        assert((a + b).reverse() =~= b.reverse() + a.reverse());
        assert(b.reverse() =~= b);
    } else {
        assert(select(lo, hi, p).reverse() =~= Seq::<usize>::empty());
    }
}

/// A selection whose first index qualifies starts with it.
pub proof fn lemma_select_first(lo: int, hi: int, q: spec_fn(int) -> bool)
    requires
        lo < hi,
        q(lo),
    ensures
        select(lo, hi, q) == seq![lo as usize] + select(lo + 1, hi, q),
    decreases hi - lo,
{
    if hi > lo + 1 {
        lemma_select_first(lo, hi - 1, q);
        assert(select(lo, hi, q) =~= seq![lo as usize] + select(lo + 1, hi, q));
    } else {
        assert(select(lo + 1, hi, q) == Seq::<usize>::empty());
        assert(select(lo, lo, q) == Seq::<usize>::empty());
        assert(select(lo, hi, q) =~= seq![lo as usize]);
    }
}


/// Keeping the elements that satisfy `p` is `Seq::filter`: the elements of
/// `s` that satisfy `p`, each where it stands, in the order of `s`.
pub proof fn law_keep_is_filter(s: Seq<usize>, p: spec_fn(usize) -> bool)
    ensures
        keep(s, p) == s.filter(p),
    decreases s.len(),
{
    reveal(Seq::filter);
    if s.len() > 0 {
        law_keep_is_filter(s.drop_last(), p);
        if p(s.last()) {
            assert(keep(s.drop_last(), p) + seq![s.last()] =~= s.drop_last().filter(p).push(s.last()));
        } else {
            assert(keep(s.drop_last(), p) + Seq::<usize>::empty() =~= s.drop_last().filter(p));
        }
    }
}

} // verus!
