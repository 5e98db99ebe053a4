//! Where an allocation goes: the rules that choose an address for a request
//! of a given size and alignment among the free entries of a set.
//!
//! Two passes, in this order. The hinted pass looks, entry by entry and hint
//! by hint, for the first overlap of a free entry with a hint range that
//! holds the request once its start is rounded up to the alignment. Only when
//! no such overlap exists does the fallback pass take, among the entries that
//! hold the request, the one of smallest span, the first one on a tie.
use vstd::arithmetic::div_mod::{lemma_fundamental_div_mod, lemma_mod_bound, lemma_mod_multiples_basic};
use vstd::prelude::*;

use crate::range::Range;

verus! {

/// `x` rounded up to the next multiple of `align`.
pub open spec fn align_up(x: int, align: int) -> int {
    if x % align == 0 {
        x
    } else {
        x + (align - x % align)
    }
}

/// A power of two: exactly one bit set.
pub open spec fn is_pow2(x: u64) -> bool {
    x != 0 && (x & ((x - 1) as u64)) == 0
}

pub proof fn lemma_pow2_positive(x: u64)
    requires
        is_pow2(x),
    ensures
        x > 0,
{
}

/// The address where `size` bytes aligned to `align` start inside `r`, if they
/// fit there and their last byte is addressable.
pub open spec fn fit_in(r: Range, size: int, align: int) -> Option<int> {
    let a = align_up(r.start as int, align);
    if a + size - 1 <= r.end && a + size - 1 <= usize::MAX {
        Some(a)
    } else {
        None
    }
}

/// The request fits into the overlap of free entry `e` with hint range `h`.
pub open spec fn hint_fits(e: Range, h: Range, size: int, align: int) -> bool {
    e.meets(h) && fit_in(e.meet(h), size, align) is Some
}

/// `(i, j)` is the first pair, entries outermost, whose overlap holds the
/// request.
pub open spec fn is_first_hint(s: Seq<Range>, hs: Seq<Range>, size: int, align: int, i: int, j: int) -> bool {
    &&& 0 <= i < s.len()
    &&& 0 <= j < hs.len()
    &&& hint_fits(s[i], hs[j], size, align)
    &&& forall|i2: int, j2: int|
        0 <= i2 < i && 0 <= j2 < hs.len() ==> !#[trigger] hint_fits(s[i2], hs[j2], size, align)
    &&& forall|j2: int| 0 <= j2 < j ==> !#[trigger] hint_fits(s[i], hs[j2], size, align)
}

/// The width of a range, less one.
pub open spec fn span_of(r: Range) -> int {
    r.end - r.start
}

/// Entry `i` holds the request, no entry that holds it is narrower, and every
/// earlier one that holds it is wider.
pub open spec fn is_best_fit(s: Seq<Range>, size: int, align: int, i: int) -> bool {
    &&& 0 <= i < s.len()
    &&& fit_in(s[i], size, align) is Some
    &&& forall|k: int|
        0 <= k < s.len() && #[trigger] fit_in(s[k], size, align) is Some ==> span_of(s[i]) <= span_of(s[k])
    &&& forall|k: int|
        0 <= k < i && #[trigger] fit_in(s[k], size, align) is Some ==> span_of(s[i]) < span_of(s[k])
}

/// The `size` bytes from address `a` lie within `r`.
pub open spec fn holds(r: Range, a: int, size: int) -> bool {
    r.start <= a && a + size - 1 <= r.end
}

/// Some overlap of an entry with a hint range holds the request.
pub open spec fn some_hint_fits(s: Seq<Range>, hs: Seq<Range>, size: int, align: int) -> bool {
    exists|i: int, j: int|
        0 <= i < s.len() && 0 <= j < hs.len() && #[trigger] hint_fits(s[i], hs[j], size, align)
}

/// The address that a request of `size` bytes aligned to `align` receives
/// from entries `s`, with hint ranges `hints`; `None` when nothing holds it.
pub open spec fn placement(s: Seq<Range>, hints: Option<Seq<Range>>, size: int, align: int) -> Option<int> {
    if hints is Some && exists|i: int, j: int| is_first_hint(s, hints->0, size, align, i, j) {
        let (i, j) = choose|i: int, j: int| is_first_hint(s, hints->0, size, align, i, j);
        fit_in(s[i].meet(hints->0[j]), size, align)
    } else if exists|i: int| is_best_fit(s, size, align, i) {
        let i = choose|i: int| is_best_fit(s, size, align, i);
        fit_in(s[i], size, align)
    } else {
        None
    }
}

/// Rounding up lands on a multiple of `align`, less than `align` above `x`.
pub proof fn lemma_align_up(x: int, align: int)
    requires
        0 <= x,
        0 < align,
    ensures
        align_up(x, align) % align == 0,
        x <= align_up(x, align) < x + align,
{
    lemma_mod_bound(x, align);
    if x % align != 0 {
        lemma_fundamental_div_mod(x, align);
        assert(x + (align - x % align) == (x / align + 1) * align) by (nonlinear_arith)
            requires
                x == align * (x / align) + x % align,
        ;
        lemma_mod_multiples_basic(x / align + 1, align);
    }
}

/// A fit lies inside the range, at a multiple of the alignment.
pub proof fn lemma_fit_in(r: Range, size: int, align: int)
    requires
        0 < align,
        0 < size,
        fit_in(r, size, align) is Some,
    ensures
        ({
            let a = fit_in(r, size, align)->0;
            &&& a % align == 0
            &&& r.start <= a
            &&& a + size - 1 <= r.end
            &&& a + size - 1 <= usize::MAX
        }),
{
    lemma_align_up(r.start as int, align);
}

pub proof fn lemma_first_hint_unique(
    s: Seq<Range>,
    hs: Seq<Range>,
    size: int,
    align: int,
    i: int,
    j: int,
    i2: int,
    j2: int,
)
    requires
        is_first_hint(s, hs, size, align, i, j),
        is_first_hint(s, hs, size, align, i2, j2),
    ensures
        i == i2 && j == j2,
{
    if i < i2 {
        assert(!hint_fits(s[i], hs[j], size, align));
    } else if i2 < i {
        assert(!hint_fits(s[i2], hs[j2], size, align));
    } else if j < j2 {
        assert(!hint_fits(s[i], hs[j], size, align));
    } else if j2 < j {
        assert(!hint_fits(s[i2], hs[j2], size, align));
    }
}

pub proof fn lemma_best_fit_unique(s: Seq<Range>, size: int, align: int, i: int, i2: int)
    requires
        is_best_fit(s, size, align, i),
        is_best_fit(s, size, align, i2),
    ensures
        i == i2,
{
    assert(fit_in(s[i], size, align) is Some);
    assert(fit_in(s[i2], size, align) is Some);
}

/// When some overlap holds the request, a first one does.
pub proof fn lemma_first_hint_exists(s: Seq<Range>, hs: Seq<Range>, size: int, align: int, i: int, j: int)
    requires
        0 <= i < s.len(),
        0 <= j < hs.len(),
        hint_fits(s[i], hs[j], size, align),
    ensures
        exists|i2: int, j2: int| is_first_hint(s, hs, size, align, i2, j2),
    decreases i, j,
{
    if !is_first_hint(s, hs, size, align, i, j) {
        if exists|i2: int, j2: int|
            0 <= i2 < i && 0 <= j2 < hs.len() && #[trigger] hint_fits(s[i2], hs[j2], size, align) {
            let (i2, j2) = choose|i2: int, j2: int|
                0 <= i2 < i && 0 <= j2 < hs.len() && #[trigger] hint_fits(s[i2], hs[j2], size, align);
            lemma_first_hint_exists(s, hs, size, align, i2, j2);
        } else {
            let j2 = choose|j2: int| 0 <= j2 < j && #[trigger] hint_fits(s[i], hs[j2], size, align);
            lemma_first_hint_exists(s, hs, size, align, i, j2);
        }
    }
}

/// When some entry holds the request, a best one does.
pub proof fn lemma_best_fit_exists(s: Seq<Range>, size: int, align: int, i: int)
    requires
        0 <= i < s.len(),
        s[i].valid(),
        fit_in(s[i], size, align) is Some,
        forall|k: int| 0 <= k < s.len() ==> (#[trigger] s[k]).valid(),
    ensures
        exists|b: int| is_best_fit(s, size, align, b),
    decreases span_of(s[i]), i,
{
    if !is_best_fit(s, size, align, i) {
        if exists|k: int|
            0 <= k < s.len() && #[trigger] fit_in(s[k], size, align) is Some && span_of(s[k]) < span_of(
                s[i],
            ) {
            let k = choose|k: int|
                0 <= k < s.len() && #[trigger] fit_in(s[k], size, align) is Some && span_of(s[k])
                    < span_of(s[i]);
            lemma_best_fit_exists(s, size, align, k);
        } else {
            let k = choose|k: int|
                0 <= k < i && #[trigger] fit_in(s[k], size, align) is Some && span_of(s[i]) >= span_of(
                    s[k],
                );
            lemma_best_fit_exists(s, size, align, k);
        }
    }
}

/// A placement lies inside one free entry, at a multiple of the alignment,
/// and its last byte is addressable.
pub proof fn lemma_placement_in_entry(s: Seq<Range>, hints: Option<Seq<Range>>, size: int, align: int)
    requires
        0 < size,
        0 < align,
        placement(s, hints, size, align) is Some,
    ensures
        ({
            let a = placement(s, hints, size, align)->0;
            &&& a % align == 0
            &&& a + size - 1 <= usize::MAX
            &&& exists|i: int| 0 <= i < s.len() && #[trigger] holds(s[i], a, size)
        }),
{
    if hints is Some && exists|i: int, j: int| is_first_hint(s, hints->0, size, align, i, j) {
        let (i, j) = choose|i: int, j: int| is_first_hint(s, hints->0, size, align, i, j);
        lemma_fit_in(s[i].meet(hints->0[j]), size, align);
        assert(holds(s[i], placement(s, hints, size, align)->0, size));
    } else {
        let i = choose|i: int| is_best_fit(s, size, align, i);
        lemma_fit_in(s[i], size, align);
        assert(holds(s[i], placement(s, hints, size, align)->0, size));
    }
}

/// Where no entry is wide enough for the request there is no placement.
pub proof fn lemma_no_room(s: Seq<Range>, hints: Option<Seq<Range>>, size: int, align: int)
    requires
        0 < size,
        0 < align,
        forall|i: int| 0 <= i < s.len() ==> span_of(#[trigger] s[i]) + 1 < size,
    ensures
        placement(s, hints, size, align) is None,
{
    if placement(s, hints, size, align) is Some {
        lemma_placement_in_entry(s, hints, size, align);
        let a = placement(s, hints, size, align)->0;
        let i = choose|i: int| 0 <= i < s.len() && #[trigger] holds(s[i], a, size);
        assert(span_of(s[i]) + 1 < size);
    }
}

/// Where some overlap of a free entry with a hint range holds the request,
/// the request is placed inside such an overlap, whatever other entries offer.
pub proof fn lemma_hint_precedence(s: Seq<Range>, hs: Seq<Range>, size: int, align: int)
    requires
        0 < size,
        0 < align,
        some_hint_fits(s, hs, size, align),
    ensures
        placement(s, Some(hs), size, align) is Some,
        ({
            let a = placement(s, Some(hs), size, align)->0;
            exists|i: int, j: int|
                0 <= i < s.len() && 0 <= j < hs.len() && #[trigger] holds(s[i], a, size) && #[trigger] holds(
                    hs[j],
                    a,
                    size,
                )
        }),
{
    let (i, j) = choose|i: int, j: int|
        0 <= i < s.len() && 0 <= j < hs.len() && #[trigger] hint_fits(s[i], hs[j], size, align);
    lemma_first_hint_exists(s, hs, size, align, i, j);
    let (i, j) = choose|i: int, j: int| is_first_hint(s, hs, size, align, i, j);
    lemma_fit_in(s[i].meet(hs[j]), size, align);
    let a = placement(s, Some(hs), size, align)->0;
    assert(holds(s[i], a, size) && holds(hs[j], a, size));
}

} // verus!
