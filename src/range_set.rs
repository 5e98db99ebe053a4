//! A fixed-capacity set of disjoint, non-adjacent inclusive ranges.
//!
//! The set never allocates: entries live in an inline array beside a count of
//! the live ones. Insertion merges every entry that overlaps or touches the
//! new range; removal trims, deletes or splits the entries it meets.
use vstd::prelude::*;

use crate::error::MemError;
use crate::placement::{
    fit_in, hint_fits, holds, is_best_fit, is_first_hint, is_pow2, lemma_align_up, lemma_best_fit_unique,
    lemma_first_hint_unique, lemma_no_room, lemma_placement_in_entry, lemma_pow2_positive, placement,
    span_of,
};
use crate::range::Range;
use crate::seq_facts::{
    lemma_addrs_push, lemma_addrs_remove, lemma_addrs_update, lemma_count_all, lemma_count_le_len,
    lemma_count_mono, lemma_count_push, lemma_count_remove, lemma_count_update, lemma_wf_push,
    lemma_wf_shrink,
};

verus! {

/// The most entries a set can hold.
pub const CAPACITY: usize = 256;

/// No entry is empty, and no two entries overlap or are adjacent.
pub open spec fn entries_wf(s: Seq<Range>) -> bool {
    &&& forall|i: int| 0 <= i < s.len() ==> (#[trigger] s[i]).valid()
    &&& forall|i: int, j: int|
        0 <= i < s.len() && 0 <= j < s.len() && i != j ==> !(#[trigger] s[i].touches(s[j]))
}

/// Some entry of `s` holds address `p`.
pub open spec fn covers(s: Seq<Range>, p: int) -> bool {
    exists|i: int| 0 <= i < s.len() && (#[trigger] s[i]).has(p)
}

/// The addresses that the entries of `s` hold together.
pub open spec fn seq_addrs(s: Seq<Range>) -> Set<int> {
    Set::new(|p: int| covers(s, p))
}

/// The addresses `lo..=hi`.
pub open spec fn span_addrs(lo: int, hi: int) -> Set<int> {
    Set::new(|p: int| lo <= p <= hi)
}

/// How many entries of `s` satisfy `pred`.
pub open spec fn count_where(s: Seq<Range>, pred: spec_fn(Range) -> bool) -> nat
    decreases s.len(),
{
    if s.len() == 0 {
        0
    } else {
        count_where(s.drop_last(), pred) + if pred(s.last()) {
            1nat
        } else {
            0nat
        }
    }
}

/// The entries that inserting `r` leaves in place: those it neither overlaps
/// nor touches. Inserting `r` needs room for one entry beside them.
pub open spec fn apart_from(s: Seq<Range>, r: Range) -> nat {
    count_where(s, |e: Range| !e.touches(r))
}

/// No more entries stay apart from `r` than the set has.
pub proof fn lemma_apart_le_len(s: Seq<Range>, r: Range)
    ensures
        apart_from(s, r) <= s.len(),
{
    lemma_count_le_len(s, |e: Range| !e.touches(r));
}

/// Some entry of `s` holds `lo..=hi` with room to spare on both sides, so
/// removing `lo..=hi` splits it in two.
pub open spec fn splits(s: Seq<Range>, lo: int, hi: int) -> bool {
    exists|i: int| 0 <= i < s.len() && (#[trigger] s[i]).start < lo && hi < s[i].end
}

/// A set of disjoint, non-adjacent inclusive ranges.
#[derive(Clone, Copy, Debug)]
pub struct RangeSet {
    /// Storage for the entries; the first `in_use` are live.
    ranges: [Range; 256],
    /// Number of live entries.
    in_use: u32,
}

impl View for RangeSet {
    type V = Seq<Range>;

    /// The live entries, in storage order.
    closed spec fn view(&self) -> Seq<Range> {
        self.ranges@.subrange(0, self.in_use as int)
    }
}

impl RangeSet {
    /// The count of live entries fits the storage.
    pub closed spec fn inv(&self) -> bool {
        self.in_use <= 256
    }

    /// The set's well-formedness: storage in order, entries valid, disjoint
    /// and non-adjacent.
    pub open spec fn wf(&self) -> bool {
        &&& self.inv()
        &&& entries_wf(self@)
    }

    /// The addresses the set holds.
    pub open spec fn addrs(&self) -> Set<int> {
        seq_addrs(self@)
    }

    proof fn lemma_view_len(&self)
        requires
            self.inv(),
        ensures
            self@.len() == self.in_use,
            forall|i: int| 0 <= i < self.in_use ==> self@[i] == #[trigger] self.ranges@[i],
    {
    }

    /// Returns an empty set.
    pub fn new() -> (r: Self)
        ensures
            r.wf(),
            r@ == Seq::<Range>::empty(),
    {
        let r = RangeSet { ranges: [Range { start: 0, end: 0 }; 256], in_use: 0 };
        assert(r@ =~= Seq::<Range>::empty());
        r
    }

    /// The live entries, in storage order.
    pub fn entries(&self) -> (r: &[Range])
        requires
            self.inv(),
        ensures
            r@ == self@,
    {
        vstd::slice::slice_subrange(self.ranges.as_slice(), 0, self.in_use as usize)
    }

    /// Deletes the entry at `idx`; later entries move down by one.
    fn delete(&mut self, idx: usize)
        requires
            old(self).inv(),
            idx < old(self)@.len(),
        ensures
            final(self).inv(),
            final(self)@ == old(self)@.remove(idx as int),
    {
        let ghost before = self.ranges@;
        let n = self.in_use as usize;
        let mut i: usize = idx;
        while i + 1 < n
            invariant
                n == self.in_use,
                self.in_use <= 256,
                idx <= i < n,
                self.ranges@.len() == before.len(),
                forall|k: int| 0 <= k < idx ==> self.ranges@[k] == before[k],
                forall|k: int| idx <= k < i ==> self.ranges@[k] == before[k + 1],
                forall|k: int| i <= k < 256 ==> self.ranges@[k] == before[k],
            decreases n - i,
        {
            self.ranges[i] = self.ranges[i + 1];
            i = i + 1;
        }
        self.in_use = self.in_use - 1;
        assert(self@ =~= old(self)@.remove(idx as int));
    }

    /// The first live entry that overlaps or touches `range`.
    fn first_touching(&self, range: &Range) -> (r: Option<usize>)
        requires
            self.wf(),
            range.valid(),
        ensures
            match r {
                Some(i) => i < self@.len() && self@[i as int].touches(*range) && forall|k: int|
                    0 <= k < i ==> !(#[trigger] self@[k]).touches(*range),
                None => forall|k: int| 0 <= k < self@.len() ==> !(#[trigger] self@[k]).touches(*range),
            },
    {
        proof {
            self.lemma_view_len();
        }
        let n = self.in_use as usize;
        let mut idx: usize = 0;
        while idx < n
            invariant
                n == self@.len(),
                self.wf(),
                range.valid(),
                idx <= n,
                forall|k: int| 0 <= k < idx ==> !(#[trigger] self@[k]).touches(*range),
            decreases n - idx,
        {
            let entry = self.ranges[idx];
            proof {
                self.lemma_view_len();
                assert(entry == self@[idx as int]);
            }
            if touching(&entry, range) {
                return Some(idx);
            }
            idx = idx + 1;
        }
        None
    }

    /// Adds `range` to the set. Every entry that overlaps or touches it is
    /// merged into it and deleted; the scan starts over after each merge, and
    /// the merged range is appended once nothing touches it.
    pub fn insert(&mut self, range: Range)
        requires
            old(self).wf(),
            range.valid(),
            apart_from(old(self)@, range) < CAPACITY,
        ensures
            final(self).wf(),
            final(self).addrs() == old(self).addrs().union(range.addrs()),
            final(self)@.len() <= old(self)@.len() + 1,
    {
        let ghost r0 = range;
        let mut range = range;
        proof {
            lemma_count_le_len(old(self)@, |e: Range| !e.touches(r0));
        }
        loop
            invariant
                self.wf(),
                range.valid(),
                r0.within(range),
                seq_addrs(self@).union(range.addrs()) == seq_addrs(old(self)@).union(r0.addrs()),
                apart_from(self@, range) <= apart_from(old(self)@, r0),
                apart_from(old(self)@, r0) < 256,
                apart_from(old(self)@, r0) <= old(self)@.len(),
            ensures
                forall|k: int| 0 <= k < self@.len() ==> !(#[trigger] self@[k]).touches(range),
            decreases self@.len(),
        {
            match self.first_touching(&range) {
                None => break,
                Some(idx) => {
                    let entry = self.ranges[idx];
                    let ghost s = self@;
                    let ghost r = range;
                    proof {
                        self.lemma_view_len();
                        assert(entry == s[idx as int]);
                        entry.lemma_hull_addrs(r);
                        lemma_addrs_remove(s, idx as int);
                    }
                    range.start = if entry.start <= range.start { entry.start } else { range.start };
                    range.end = if entry.end >= range.end { entry.end } else { range.end };
                    self.delete(idx);
                    proof {
                        assert(range == entry.hull(r));
                        let t = s.remove(idx as int);
                        assert(self@ == t);
                        lemma_count_remove(s, idx as int, |e: Range| !e.touches(r));
                        lemma_count_mono(t, |e: Range| !e.touches(range), |e: Range| !e.touches(r));
                        assert(seq_addrs(t).union(range.addrs()) =~= seq_addrs(s).union(r.addrs()));
                    }
                },
            }
        }
        proof {
            self.lemma_view_len();
            lemma_count_all(self@, |e: Range| !e.touches(range));
            lemma_count_mono(self@, |e: Range| !e.touches(range), |e: Range| !e.touches(r0));
        }
        let ghost s = self@;
        let n = self.in_use as usize;
        self.ranges[n] = range;
        self.in_use = self.in_use + 1;
        proof {
            assert(self@ =~= s.push(range));
            lemma_addrs_push(s, range);
            lemma_wf_push(s, range);
        }
    }

    /// The first live entry that shares an address with `range`.
    fn first_meeting(&self, range: &Range) -> (r: Option<usize>)
        requires
            self.wf(),
            range.valid(),
        ensures
            match r {
                Some(i) => i < self@.len() && self@[i as int].meets(*range) && forall|k: int|
                    0 <= k < i ==> !(#[trigger] self@[k]).meets(*range),
                None => forall|k: int| 0 <= k < self@.len() ==> !(#[trigger] self@[k]).meets(*range),
            },
    {
        proof {
            self.lemma_view_len();
        }
        let n = self.in_use as usize;
        let mut idx: usize = 0;
        while idx < n
            invariant
                n == self@.len(),
                self.wf(),
                range.valid(),
                idx <= n,
                forall|k: int| 0 <= k < idx ==> !(#[trigger] self@[k]).meets(*range),
            decreases n - idx,
        {
            let entry = self.ranges[idx];
            proof {
                self.lemma_view_len();
                assert(entry == self@[idx as int]);
            }
            if entry.overlaps(range).is_some() {
                return Some(idx);
            }
            idx = idx + 1;
        }
        None
    }

    /// Takes the addresses of `range` out of the set. An entry that lies
    /// within `range` is deleted, one that sticks out on one side is trimmed,
    /// and one that sticks out on both sides is split in two; the scan starts
    /// over after each change.
    pub fn remove(&mut self, range: Range)
        requires
            old(self).wf(),
            range.valid(),
            old(self)@.len() < CAPACITY || !splits(old(self)@, range.start as int, range.end as int),
        ensures
            final(self).wf(),
            final(self).addrs() == old(self).addrs().difference(range.addrs()),
            final(self)@.len() <= old(self)@.len() + 1,
    {
        loop
            invariant
                self.wf(),
                range.valid(),
                seq_addrs(self@).difference(range.addrs()) == seq_addrs(old(self)@).difference(
                    range.addrs(),
                ),
                forall|i: int|
                    0 <= i < self@.len() && (#[trigger] self@[i]).start < range.start && range.end
                        < self@[i].end ==> self@.len() <= old(self)@.len() && splits(
                        old(self)@,
                        range.start as int,
                        range.end as int,
                    ),
                self@.len() <= old(self)@.len() + 1,
                old(self)@.len() < 256 || !splits(old(self)@, range.start as int, range.end as int),
            ensures
                forall|k: int| 0 <= k < self@.len() ==> !(#[trigger] self@[k]).meets(range),
            decreases count_where(self@, |e: Range| e.meets(range)),
        {
            match self.first_meeting(&range) {
                None => break,
                Some(idx) => {
                    let ghost s = self@;
                    let ghost cut = |e: Range| e.meets(range);
                    proof {
                        self.lemma_view_len();
                        lemma_addrs_remove(s, idx as int);
                    }
                    let entry = self.ranges[idx];
                    assert(entry == s[idx as int]);
                    if range.contains(&entry) {
                        self.delete(idx);
                        proof {
                            let t = s.remove(idx as int);
                            assert(self@ == t);
                            lemma_count_remove(s, idx as int, cut);
                            assert(seq_addrs(t).difference(range.addrs()) =~= seq_addrs(s).difference(
                                range.addrs(),
                            ));
                            assert forall|i: int|
                                0 <= i < t.len() && (#[trigger] t[i]).start < range.start && range.end
                                    < t[i].end implies t.len() <= old(self)@.len() && splits(
                                old(self)@,
                                range.start as int,
                                range.end as int,
                            ) by {
                                let i2 = if i < idx { i } else { i + 1 };
                                assert(t[i] == s[i2]);
                            }
                        }
                    } else if range.start <= entry.start {
                        // Only the part above `range` stays.
                        let ghost x = Range { start: (range.end + 1) as u64, end: entry.end };
                        self.ranges[idx].start = range.end + 1;
                        proof {
                            assert(self@ =~= s.update(idx as int, x));
                            lemma_wf_shrink(s, idx as int, x);
                            lemma_count_update(s, idx as int, x, cut);
                            lemma_addrs_update(s, idx as int, x);
                            assert(seq_addrs(self@).difference(range.addrs()) =~= seq_addrs(s).difference(
                                range.addrs(),
                            ));
                        }
                    } else if range.end >= entry.end {
                        // Only the part below `range` stays.
                        let ghost x = Range { start: entry.start, end: (range.start - 1) as u64 };
                        self.ranges[idx].end = range.start - 1;
                        proof {
                            assert(self@ =~= s.update(idx as int, x));
                            lemma_wf_shrink(s, idx as int, x);
                            lemma_count_update(s, idx as int, x, cut);
                            lemma_addrs_update(s, idx as int, x);
                            assert(seq_addrs(self@).difference(range.addrs()) =~= seq_addrs(s).difference(
                                range.addrs(),
                            ));
                        }
                    } else {
                        // `range` lies strictly inside the entry: keep the
                        // part above it in place and append the part below.
                        let n = self.in_use as usize;
                        let ghost hi = Range { start: (range.end + 1) as u64, end: entry.end };
                        let lo = Range { start: entry.start, end: range.start - 1 };
                        self.ranges[idx].start = range.end + 1;
                        self.ranges[n] = lo;
                        self.in_use = self.in_use + 1;
                        proof {
                            let u = s.update(idx as int, hi);
                            assert(self@ =~= u.push(lo));
                            lemma_wf_shrink(s, idx as int, hi);
                            assert forall|k: int| 0 <= k < u.len() implies !(#[trigger] u[k]).touches(
                                lo,
                            ) by {
                                if k != idx {
                                    assert(!s[k].touches(s[idx as int]));
                                }
                            }
                            lemma_wf_push(u, lo);
                            lemma_count_update(s, idx as int, hi, cut);
                            lemma_count_push(u, lo, cut);
                            lemma_addrs_update(s, idx as int, hi);
                            lemma_addrs_push(u, lo);
                            assert(seq_addrs(self@).difference(range.addrs()) =~= seq_addrs(s).difference(
                                range.addrs(),
                            ));
                            assert forall|i: int|
                                0 <= i < self@.len() && (#[trigger] self@[i]).start < range.start
                                    && range.end < self@[i].end implies false by {
                                if i != idx && i < s.len() {
                                    assert(!s[i].touches(s[idx as int]));
                                }
                            }
                        }
                    }
                },
            }
        }
        proof {
            assert(seq_addrs(self@) =~= seq_addrs(self@).difference(range.addrs()));
        }
    }

    /// Where a request of `size` bytes aligned to `align` would go.
    fn find_placement(&self, size: u64, align: u64, regions: Option<&RangeSet>) -> (r: Option<u64>)
        requires
            self.wf(),
            size > 0,
            align > 0,
            regions matches Some(h) ==> h.wf(),
        ensures
            match r {
                Some(a) => placement(self@, hint_view(regions), size as int, align as int) == Some(a as int),
                None => placement(self@, hint_view(regions), size as int, align as int) is None,
            },
    {
        let ghost s = self@;
        proof {
            self.lemma_view_len();
        }
        let n = self.in_use as usize;
        // Hinted pass: the first overlap of an entry with a hint range that
        // holds the request.
        if let Some(hints) = regions {
            let ghost hs = hints@;
            proof {
                hints.lemma_view_len();
            }
            let hn = hints.in_use as usize;
            let mut i: usize = 0;
            while i < n
                invariant
                    s == self@,
                    hs == hints@,
                    regions == Some(hints),
                    self.wf(),
                    hints.wf(),
                    n == s.len(),
                    hn == hs.len(),
                    size > 0,
                    align > 0,
                    i <= n,
                    forall|i2: int, j2: int|
                        0 <= i2 < i && 0 <= j2 < hn ==> !#[trigger] hint_fits(
                            s[i2],
                            hs[j2],
                            size as int,
                            align as int,
                        ),
                decreases n - i,
            {
                let entry = self.ranges[i];
                proof {
                    self.lemma_view_len();
                    assert(entry == s[i as int]);
                }
                let mut j: usize = 0;
                while j < hn
                    invariant
                        s == self@,
                        hs == hints@,
                        regions == Some(hints),
                        self.wf(),
                        hints.wf(),
                        n == s.len(),
                        hn == hs.len(),
                        size > 0,
                        align > 0,
                        i < n,
                        j <= hn,
                        entry == s[i as int],
                        forall|i2: int, j2: int|
                            0 <= i2 < i && 0 <= j2 < hn ==> !#[trigger] hint_fits(
                                s[i2],
                                hs[j2],
                                size as int,
                                align as int,
                            ),
                        forall|j2: int|
                            0 <= j2 < j ==> !#[trigger] hint_fits(s[i as int], hs[j2], size as int, align as int),
                    decreases hn - j,
                {
                    let h = hints.ranges[j];
                    proof {
                        hints.lemma_view_len();
                        assert(h == hs[j as int]);
                        assert(h.valid());
                    }
                    if let Some(ov) = entry.overlaps(&h) {
                        if let Some(a) = fit_at(&ov, size, align) {
                            proof {
                                assert(is_first_hint(s, hs, size as int, align as int, i as int, j as int));
                                let (i2, j2) = choose|i2: int, j2: int|
                                    is_first_hint(s, hs, size as int, align as int, i2, j2);
                                lemma_first_hint_unique(
                                    s,
                                    hs,
                                    size as int,
                                    align as int,
                                    i as int,
                                    j as int,
                                    i2,
                                    j2,
                                );
                                assert(ov == s[i as int].meet(hs[j as int]));
                                assert(hint_view(regions) == Some(hs));
                            }
                            return Some(a);
                        }
                    }
                    j = j + 1;
                }
                i = i + 1;
            }
            proof {
                assert forall|i2: int, j2: int| !is_first_hint(s, hs, size as int, align as int, i2, j2) by {
                    if 0 <= i2 < n && 0 <= j2 < hn {
                        assert(!hint_fits(s[i2], hs[j2], size as int, align as int));
                    }
                }
            }
        }
        // Fallback pass: the narrowest entry that holds the request, the
        // first one on a tie.
        let mut best: Option<(usize, u64)> = None;
        let mut i: usize = 0;
        while i < n
            invariant
                s == self@,
                self.wf(),
                n == s.len(),
                size > 0,
                align > 0,
                i <= n,
                match best {
                    None => forall|k: int| 0 <= k < i ==> #[trigger] fit_in(s[k], size as int, align as int) is None,
                    Some((b, a)) => {
                        &&& b < i
                        &&& fit_in(s[b as int], size as int, align as int) == Some(a as int)
                        &&& forall|k: int|
                            0 <= k < i && #[trigger] fit_in(s[k], size as int, align as int) is Some ==> span_of(
                                s[b as int],
                            ) <= span_of(s[k])
                        &&& forall|k: int|
                            0 <= k < b && #[trigger] fit_in(s[k], size as int, align as int) is Some ==> span_of(
                                s[b as int],
                            ) < span_of(s[k])
                    },
                },
            decreases n - i,
        {
            let entry = self.ranges[i];
            proof {
                self.lemma_view_len();
                assert(entry == s[i as int]);
                assert(entry.valid());
            }
            if let Some(a) = fit_at(&entry, size, align) {
                match best {
                    None => {
                        best = Some((i, a));
                    },
                    Some((b, _)) => {
                        let chosen = self.ranges[b];
                        proof {
                            assert(chosen == s[b as int]);
                            assert(chosen.valid());
                        }
                        if entry.end - entry.start < chosen.end - chosen.start {
                            best = Some((i, a));
                        }
                    },
                }
            }
            i = i + 1;
        }
        match best {
            Some((b, a)) => {
                proof {
                    assert(is_best_fit(s, size as int, align as int, b as int));
                    let b2 = choose|b2: int| is_best_fit(s, size as int, align as int, b2);
                    lemma_best_fit_unique(s, size as int, align as int, b as int, b2);
                }
                Some(a)
            },
            None => None,
        }
    }

    /// Takes `size` bytes aligned to `align` out of the set and returns their
    /// first address, preferring the hint ranges in `regions` (see
    /// `placement`). Returns `None`, and leaves the set as it was, when no free
    /// entry holds the request.
    pub fn allocate(&mut self, size: u64, align: u64, regions: Option<&RangeSet>) -> (r: Option<usize>)
        requires
            old(self).wf(),
            size > 0,
            is_pow2(align),
            regions matches Some(h) ==> h.wf(),
            room_to_place(old(self)@, hint_view(regions), size as int, align as int),
        ensures
            final(self).wf(),
            match r {
                Some(a) => placement(old(self)@, hint_view(regions), size as int, align as int) == Some(
                    a as int,
                ),
                None => placement(old(self)@, hint_view(regions), size as int, align as int) is None,
            },
            r matches Some(a) ==> final(self).addrs() == old(self).addrs().difference(
                span_addrs(a as int, a + size - 1),
            ),
            r is None ==> *final(self) == *old(self),
            r matches Some(a) ==> {
                &&& (a as int) % (align as int) == 0
                &&& exists|i: int|
                    0 <= i < old(self)@.len() && #[trigger] holds(old(self)@[i], a as int, size as int)
                &&& span_addrs(a as int, a + size - 1).subset_of(old(self).addrs())
                &&& span_addrs(a as int, a + size - 1).disjoint(final(self).addrs())
            },
            (forall|i: int| 0 <= i < old(self)@.len() ==> span_of(#[trigger] old(self)@[i]) + 1 < size)
                ==> r is None,
    {
        proof {
            lemma_pow2_positive(align);
            if forall|i: int| 0 <= i < old(self)@.len() ==> span_of(#[trigger] old(self)@[i]) + 1 < size {
                lemma_no_room(old(self)@, hint_view(regions), size as int, align as int);
            }
        }
        match self.find_placement(size, align, regions) {
            Some(a) => {
                let ghost s = self@;
                proof {
                    lemma_placement_in_entry(s, hint_view(regions), size as int, align as int);
                    let i = choose|i: int| 0 <= i < s.len() && #[trigger] holds(s[i], a as int, size as int);
                    assert forall|p: int| span_addrs(a as int, a + size - 1).contains(p) implies #[trigger] covers(
                        s,
                        p,
                    ) by {
                        assert(s[i].has(p));
                    }
                }
                let taken = Range { start: a, end: a + (size - 1) };
                self.remove(taken);
                proof {
                    assert(taken.addrs() =~= span_addrs(a as int, a + size - 1));
                    assert(span_addrs(a as int, a + size - 1).subset_of(seq_addrs(s)));
                    assert(span_addrs(a as int, a + size - 1).disjoint(self.addrs()));
                }
                Some(a as usize)
            },
            None => None,
        }
    }

    /// Like `allocate`, but a request that `allocate` does not take is
    /// answered with the error it breaks, and the set is left as it was.
    pub fn try_allocate(&mut self, size: u64, align: u64, regions: Option<&RangeSet>) -> (r: Result<usize, MemError>)
        requires
            old(self).wf(),
            regions matches Some(h) ==> h.wf(),
        ensures
            allocate_outcome(*old(self), *final(self), size, align, hint_view(regions), r),
    {
        if size == 0 {
            return Err(MemError::ZeroSizeAllocation);
        }
        if align == 0 || (align & (align - 1)) != 0 {
            return Err(MemError::NonPowerOfTwoAlignment);
        }
        proof {
            lemma_pow2_positive(align);
        }
        match self.find_placement(size, align, regions) {
            None => Err(MemError::OutOfMemory),
            Some(a) => {
                proof {
                    lemma_placement_in_entry(self@, hint_view(regions), size as int, align as int);
                }
                let end = a + (size - 1);
                if self.in_use as usize >= CAPACITY && self.would_split(a, end) {
                    proof {
                        self.lemma_view_len();
                    }
                    return Err(MemError::CapacityExceeded);
                }
                proof {
                    self.lemma_view_len();
                }
                match self.allocate(size, align, regions) {
                    Some(p) => Ok(p),
                    None => Err(MemError::OutOfMemory),
                }
            },
        }
    }

    /// Whether removing `lo..=hi` would split an entry in two.
    fn would_split(&self, lo: u64, hi: u64) -> (r: bool)
        requires
            self.wf(),
        ensures
            r == splits(self@, lo as int, hi as int),
    {
        proof {
            self.lemma_view_len();
        }
        let n = self.in_use as usize;
        let mut i: usize = 0;
        while i < n
            invariant
                n == self@.len(),
                self.wf(),
                i <= n,
                forall|k: int| 0 <= k < i ==> !((#[trigger] self@[k]).start < lo && hi < self@[k].end),
            decreases n - i,
        {
            let e = self.ranges[i];
            proof {
                self.lemma_view_len();
                assert(e == self@[i as int]);
            }
            if e.start < lo && hi < e.end {
                return true;
            }
            i = i + 1;
        }
        false
    }

    /// How many entries neither overlap nor touch `range`.
    fn count_apart(&self, range: &Range) -> (c: usize)
        requires
            self.wf(),
            range.valid(),
        ensures
            c == apart_from(self@, *range),
    {
        proof {
            self.lemma_view_len();
        }
        let ghost s = self@;
        let ghost pred = |e: Range| !e.touches(*range);
        let n = self.in_use as usize;
        let mut c: usize = 0;
        let mut i: usize = 0;
        while i < n
            invariant
                s == self@,
                n == s.len(),
                n <= 256,
                self.wf(),
                range.valid(),
                i <= n,
                c <= i,
                pred == (|e: Range| !e.touches(*range)),
                c == count_where(s.subrange(0, i as int), pred),
            decreases n - i,
        {
            let e = self.ranges[i];
            proof {
                self.lemma_view_len();
                assert(e == s[i as int]);
                assert(s.subrange(0, i + 1).drop_last() =~= s.subrange(0, i as int));
                assert(s.subrange(0, i + 1).last() == e);
                assert(pred(e) == !e.touches(*range));
            }
            if !touching(&e, range) {
                c = c + 1;
            }
            i = i + 1;
        }
        assert(s.subrange(0, n as int) =~= s);
        c
    }

    /// Like `insert`, but a range that `insert` does not take is answered
    /// with the error it breaks, and the set is left as it was.
    pub fn try_insert(&mut self, range: Range) -> (r: Result<(), MemError>)
        requires
            old(self).wf(),
        ensures
            insert_outcome(*old(self), *final(self), range, r),
    {
        if range.start > range.end {
            return Err(MemError::InvalidRange);
        }
        if self.count_apart(&range) >= CAPACITY {
            return Err(MemError::CapacityExceeded);
        }
        self.insert(range);
        Ok(())
    }

    /// Like `remove`, but a range that `remove` does not take is answered
    /// with the error it breaks, and the set is left as it was.
    pub fn try_remove(&mut self, range: Range) -> (r: Result<(), MemError>)
        requires
            old(self).wf(),
        ensures
            remove_outcome(*old(self), *final(self), range, r),
    {
        if range.start > range.end {
            return Err(MemError::InvalidRange);
        }
        proof {
            self.lemma_view_len();
        }
        if self.in_use as usize >= CAPACITY && self.would_split(range.start, range.end) {
            return Err(MemError::CapacityExceeded);
        }
        self.remove(range);
        Ok(())
    }
}

/// Where `size` bytes aligned to `align` start inside `r`, if they fit there
/// and their last byte is addressable.
fn fit_at(r: &Range, size: u64, align: u64) -> (res: Option<u64>)
    requires
        r.valid(),
        size > 0,
        align > 0,
    ensures
        match res {
            Some(a) => fit_in(*r, size as int, align as int) == Some(a as int),
            None => fit_in(*r, size as int, align as int) is None,
        },
{
    proof {
        lemma_align_up(r.start as int, align as int);
    }
    let rem = r.start % align;
    let start = if rem == 0 {
        r.start
    } else {
        match r.start.checked_add(align - rem) {
            Some(a) => a,
            None => return None,
        }
    };
    let end = match start.checked_add(size - 1) {
        Some(e) => e,
        None => return None,
    };
    if end <= r.end && end <= usize::MAX as u64 {
        Some(start)
    } else {
        None
    }
}

/// Whether `a` and `b` overlap or touch.
fn touching(a: &Range, b: &Range) -> (r: bool)
    requires
        a.valid(),
        b.valid(),
    ensures
        r == a.touches(*b),
{
    // Lengthen both by one address at the end: they touch exactly when the
    // lengthened ranges overlap.
    let first = Range::new(a.start, a.end.saturating_add(1));
    let second = Range::new(b.start, b.end.saturating_add(1));
    first.overlaps(&second).is_some()
}

/// Taking the placed request out of the set splits no entry, or there is
/// room for one more entry.
pub open spec fn room_to_place(s: Seq<Range>, hints: Option<Seq<Range>>, size: int, align: int) -> bool {
    match placement(s, hints, size, align) {
        Some(a) => s.len() < CAPACITY || !splits(s, a, a + size - 1),
        None => true,
    }
}

/// What `try_insert` does: `after` is `before` with `range` inserted, or the
/// error that `range` breaks with `before` unchanged.
pub open spec fn insert_outcome(before: RangeSet, after: RangeSet, range: Range, r: Result<(), MemError>) -> bool {
    &&& after.wf()
    &&& r is Err ==> after == before
    &&& !range.valid() ==> r == Err::<(), MemError>(MemError::InvalidRange)
    &&& range.valid() && apart_from(before@, range) >= CAPACITY ==> r == Err::<(), MemError>(
        MemError::CapacityExceeded,
    )
    &&& range.valid() && apart_from(before@, range) < CAPACITY ==> {
        &&& r == Ok::<(), MemError>(())
        &&& after.addrs() == before.addrs().union(range.addrs())
        &&& after@.len() <= before@.len() + 1
    }
}

/// What `try_remove` does: `after` is `before` with `range` removed, or the
/// error that `range` breaks with `before` unchanged.
pub open spec fn remove_outcome(before: RangeSet, after: RangeSet, range: Range, r: Result<(), MemError>) -> bool {
    &&& after.wf()
    &&& r is Err ==> after == before
    &&& !range.valid() ==> r == Err::<(), MemError>(MemError::InvalidRange)
    &&& range.valid() && before@.len() >= CAPACITY && splits(before@, range.start as int, range.end as int)
        ==> r == Err::<(), MemError>(MemError::CapacityExceeded)
    &&& range.valid() && (before@.len() < CAPACITY || !splits(before@, range.start as int, range.end as int))
        ==> {
        &&& r == Ok::<(), MemError>(())
        &&& after.addrs() == before.addrs().difference(range.addrs())
        &&& after@.len() <= before@.len() + 1
    }
}

/// What `try_allocate` does: on success `after` is `before` less the placed
/// request (see `placement`); otherwise the error that the request breaks,
/// with `before` unchanged.
pub open spec fn allocate_outcome(
    before: RangeSet,
    after: RangeSet,
    size: u64,
    align: u64,
    hints: Option<Seq<Range>>,
    r: Result<usize, MemError>,
) -> bool {
    &&& after.wf()
    &&& r is Err ==> after == before
    &&& size == 0 ==> r == Err::<usize, MemError>(MemError::ZeroSizeAllocation)
    &&& size > 0 && !is_pow2(align) ==> r == Err::<usize, MemError>(MemError::NonPowerOfTwoAlignment)
    &&& size > 0 && is_pow2(align) ==> match placement(before@, hints, size as int, align as int) {
        None => r == Err::<usize, MemError>(MemError::OutOfMemory),
        Some(a) => if room_to_place(before@, hints, size as int, align as int) {
            &&& r == Ok::<usize, MemError>(a as usize)
            &&& a as usize == a
            &&& after.addrs() == before.addrs().difference(span_addrs(a, a + size - 1))
        } else {
            r == Err::<usize, MemError>(MemError::CapacityExceeded)
        },
    }
}

/// The addresses of the hint ranges, if there are any.
pub open spec fn hint_view(regions: Option<&RangeSet>) -> Option<Seq<Range>> {
    match regions {
        Some(h) => Some(h@),
        None => None,
    }
}

} // verus!
