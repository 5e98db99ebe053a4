//! Facts about sequences of ranges: counting entries, and the addresses
//! that entries hold after the edits the set makes.
use vstd::prelude::*;

use crate::range::Range;
use crate::range_set::{count_where, covers, entries_wf, seq_addrs};

verus! {

pub proof fn lemma_count_add(a: Seq<Range>, b: Seq<Range>, pred: spec_fn(Range) -> bool)
    ensures
        count_where(a + b, pred) == count_where(a, pred) + count_where(b, pred),
    decreases b.len(),
{
    if b.len() == 0 {
        assert(a + b =~= a);
    } else {
        assert((a + b).drop_last() =~= a + b.drop_last());
        lemma_count_add(a, b.drop_last(), pred);
    }
}

pub proof fn lemma_count_single(x: Range, pred: spec_fn(Range) -> bool)
    ensures
        count_where(seq![x], pred) == if pred(x) { 1nat } else { 0nat },
{
    assert(seq![x].drop_last() =~= Seq::<Range>::empty());
    assert(count_where(seq![x].drop_last(), pred) == 0);
    assert(seq![x].last() == x);
}

pub proof fn lemma_count_push(s: Seq<Range>, x: Range, pred: spec_fn(Range) -> bool)
    ensures
        count_where(s.push(x), pred) == count_where(s, pred) + if pred(x) { 1nat } else { 0nat },
{
    assert(s.push(x).drop_last() =~= s);
}

pub proof fn lemma_count_remove(s: Seq<Range>, i: int, pred: spec_fn(Range) -> bool)
    requires
        0 <= i < s.len(),
    ensures
        count_where(s, pred) == count_where(s.remove(i), pred) + if pred(s[i]) { 1nat } else { 0nat },
{
    let a = s.subrange(0, i);
    let b = s.subrange(i + 1, s.len() as int);
    assert(s =~= a + (seq![s[i]] + b));
    lemma_count_add(a, seq![s[i]] + b, pred);
    lemma_count_add(seq![s[i]], b, pred);
    lemma_count_single(s[i], pred);
    lemma_count_add(a, b, pred);
}

pub proof fn lemma_count_update(s: Seq<Range>, i: int, x: Range, pred: spec_fn(Range) -> bool)
    requires
        0 <= i < s.len(),
    ensures
        count_where(s.update(i, x), pred) + (if pred(s[i]) { 1nat } else { 0nat })
            == count_where(s, pred) + (if pred(x) { 1nat } else { 0nat }),
{
    lemma_count_remove(s, i, pred);
    lemma_count_remove(s.update(i, x), i, pred);
    assert(s.update(i, x).remove(i) =~= s.remove(i));
}

pub proof fn lemma_count_le_len(s: Seq<Range>, pred: spec_fn(Range) -> bool)
    ensures
        count_where(s, pred) <= s.len(),
    decreases s.len(),
{
    if s.len() > 0 {
        lemma_count_le_len(s.drop_last(), pred);
    }
}

pub proof fn lemma_count_all(s: Seq<Range>, pred: spec_fn(Range) -> bool)
    requires
        forall|k: int| 0 <= k < s.len() ==> pred(#[trigger] s[k]),
    ensures
        count_where(s, pred) == s.len(),
    decreases s.len(),
{
    if s.len() > 0 {
        assert forall|k: int| 0 <= k < s.drop_last().len() implies pred(#[trigger] s.drop_last()[k]) by {
            assert(s.drop_last()[k] == s[k]);
        }
        lemma_count_all(s.drop_last(), pred);
    }
}

pub proof fn lemma_count_mono(s: Seq<Range>, p: spec_fn(Range) -> bool, q: spec_fn(Range) -> bool)
    requires
        forall|k: int| 0 <= k < s.len() && p(#[trigger] s[k]) ==> q(s[k]),
    ensures
        count_where(s, p) <= count_where(s, q),
    decreases s.len(),
{
    if s.len() > 0 {
        assert forall|k: int| 0 <= k < s.drop_last().len() && p(#[trigger] s.drop_last()[k]) implies q(
            s.drop_last()[k],
        ) by {
            assert(s.drop_last()[k] == s[k]);
        }
        lemma_count_mono(s.drop_last(), p, q);
    }
}

/// Removing entry `i` loses exactly the addresses that entry held, when the
/// entries are disjoint.
pub proof fn lemma_addrs_remove(s: Seq<Range>, i: int)
    requires
        0 <= i < s.len(),
    ensures
        seq_addrs(s.remove(i)).union(s[i].addrs()) =~= seq_addrs(s),
        entries_wf(s) ==> seq_addrs(s.remove(i)) =~= seq_addrs(s).difference(s[i].addrs()),
        entries_wf(s) ==> entries_wf(s.remove(i)),
{
    let t = s.remove(i);
    assert forall|p: int| #[trigger] covers(s, p) implies covers(t, p) || s[i].has(p) by {
        let k = choose|k: int| 0 <= k < s.len() && (#[trigger] s[k]).has(p);
        if k < i {
            assert(t[k] == s[k]);
        } else if k > i {
            assert(t[k - 1] == s[k]);
        }
    }
    assert forall|p: int| #[trigger] covers(t, p) implies covers(s, p) && (entries_wf(s) ==> !s[i].has(p)) by {
        let k = choose|k: int| 0 <= k < t.len() && (#[trigger] t[k]).has(p);
        if k < i {
            assert(t[k] == s[k]);
            if entries_wf(s) {
                assert(!s[k].touches(s[i]));
            }
        } else {
            assert(t[k] == s[k + 1]);
            if entries_wf(s) {
                assert(!s[k + 1].touches(s[i]));
            }
        }
    }
    assert forall|p: int| s[i].has(p) implies covers(s, p) by {
        assert(s[i].has(p));
    }
    if entries_wf(s) {
        assert forall|a: int, b: int| 0 <= a < t.len() && 0 <= b < t.len() && a != b implies !(
        #[trigger] t[a].touches(t[b])) by {
            let a2 = if a < i { a } else { a + 1 };
            let b2 = if b < i { b } else { b + 1 };
            assert(t[a] == s[a2] && t[b] == s[b2]);
            assert(!s[a2].touches(s[b2]));
        }
        assert forall|a: int| 0 <= a < t.len() implies (#[trigger] t[a]).valid() by {
            let a2 = if a < i { a } else { a + 1 };
            assert(t[a] == s[a2]);
        }
    }
}

/// Appending an entry adds exactly its addresses.
pub proof fn lemma_addrs_push(s: Seq<Range>, x: Range)
    ensures
        seq_addrs(s.push(x)) =~= seq_addrs(s).union(x.addrs()),
{
    let t = s.push(x);
    assert forall|p: int| #[trigger] covers(t, p) implies covers(s, p) || x.has(p) by {
        let k = choose|k: int| 0 <= k < t.len() && (#[trigger] t[k]).has(p);
        if k < s.len() {
            assert(t[k] == s[k]);
        }
    }
    assert forall|p: int| #[trigger] covers(s, p) implies covers(t, p) by {
        let k = choose|k: int| 0 <= k < s.len() && (#[trigger] s[k]).has(p);
        assert(t[k] == s[k]);
    }
    assert forall|p: int| x.has(p) implies #[trigger] covers(t, p) by {
        assert(t[s.len() as int] == x);
    }
}

/// Replacing entry `i` by `x` trades the addresses of one for those of the
/// other, when entry `i` shares none with the rest.
pub proof fn lemma_addrs_update(s: Seq<Range>, i: int, x: Range)
    requires
        0 <= i < s.len(),
    ensures
        seq_addrs(s.update(i, x)) =~= seq_addrs(s.remove(i)).union(x.addrs()),
{
    let t = s.update(i, x);
    let u = s.remove(i);
    assert forall|p: int| #[trigger] covers(t, p) implies covers(u, p) || x.has(p) by {
        let k = choose|k: int| 0 <= k < t.len() && (#[trigger] t[k]).has(p);
        if k < i {
            assert(u[k] == t[k]);
        } else if k > i {
            assert(u[k - 1] == t[k]);
        }
    }
    assert forall|p: int| #[trigger] covers(u, p) implies covers(t, p) by {
        let k = choose|k: int| 0 <= k < u.len() && (#[trigger] u[k]).has(p);
        if k < i {
            assert(t[k] == u[k]);
        } else {
            assert(t[k + 1] == u[k]);
        }
    }
    assert forall|p: int| x.has(p) implies #[trigger] covers(t, p) by {
        assert(t[i] == x);
    }
}

/// Shrinking an entry keeps the entries well formed.
pub proof fn lemma_wf_shrink(s: Seq<Range>, i: int, x: Range)
    requires
        entries_wf(s),
        0 <= i < s.len(),
        x.valid(),
        x.within(s[i]),
    ensures
        entries_wf(s.update(i, x)),
{
    let t = s.update(i, x);
    assert forall|a: int, b: int| 0 <= a < t.len() && 0 <= b < t.len() && a != b implies !(
    #[trigger] t[a].touches(t[b])) by {
        assert(!s[a].touches(s[b]));
    }
    assert forall|a: int| 0 <= a < t.len() implies (#[trigger] t[a]).valid() by {
        assert(s[a].valid());
    }
}

/// Appending an entry that touches none keeps the entries well formed.
pub proof fn lemma_wf_push(s: Seq<Range>, x: Range)
    requires
        entries_wf(s),
        x.valid(),
        forall|k: int| 0 <= k < s.len() ==> !(#[trigger] s[k]).touches(x),
    ensures
        entries_wf(s.push(x)),
{
    let t = s.push(x);
    assert forall|a: int, b: int| 0 <= a < t.len() && 0 <= b < t.len() && a != b implies !(
    #[trigger] t[a].touches(t[b])) by {
        if a < s.len() && b < s.len() {
            assert(!s[a].touches(s[b]));
        } else if a < s.len() {
            assert(!s[a].touches(x));
        } else {
            assert(!s[b].touches(x));
        }
    }
    assert forall|a: int| 0 <= a < t.len() implies (#[trigger] t[a]).valid() by {
        if a < s.len() {
            assert(s[a].valid());
        }
    }
}

} // verus!
