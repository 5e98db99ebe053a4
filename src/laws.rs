//! What holds across calls: a well-formed set is fixed by the addresses it
//! holds, so edits that agree on addresses agree on entries.
use vstd::prelude::*;

use crate::range::Range;
use crate::range_set::{covers, entries_wf, seq_addrs, RangeSet};

verus! {

/// Each entry of `a` is an entry of `b`, when both are well formed and hold
/// the same addresses.
proof fn lemma_entry_shared(a: Seq<Range>, b: Seq<Range>, i: int)
    requires
        entries_wf(a),
        entries_wf(b),
        seq_addrs(a) == seq_addrs(b),
        0 <= i < a.len(),
    ensures
        b.contains(a[i]),
{
    let x = a[i];
    assert(x.valid());
    assert(x.has(x.start as int));
    assert(seq_addrs(a).contains(x.start as int));
    assert(covers(b, x.start as int));
    let k = choose|k: int| 0 <= k < b.len() && (#[trigger] b[k]).has(x.start as int);
    let y = b[k];
    if y.start < x.start {
        let p = x.start - 1;
        assert(y.has(p));
        assert(seq_addrs(b).contains(p));
        let m = choose|m: int| 0 <= m < a.len() && (#[trigger] a[m]).has(p);
        assert(a[m].touches(a[i]));
    }
    if y.end < x.end {
        let q = y.end + 1;
        assert(x.has(q));
        assert(seq_addrs(a).contains(q));
        let m = choose|m: int| 0 <= m < b.len() && (#[trigger] b[m]).has(q);
        assert(b[m].touches(b[k]));
    } else if y.end > x.end {
        let q = x.end + 1;
        assert(y.has(q));
        assert(seq_addrs(b).contains(q));
        let m = choose|m: int| 0 <= m < a.len() && (#[trigger] a[m]).has(q);
        assert(a[m].touches(a[i]));
    }
    assert(b[k] == x);
}

/// A well-formed list of entries is fixed by the addresses it holds: two that
/// hold the same addresses hold the same entries.
pub proof fn lemma_canonical(a: Seq<Range>, b: Seq<Range>)
    requires
        entries_wf(a),
        entries_wf(b),
        seq_addrs(a) == seq_addrs(b),
    ensures
        a.to_set() == b.to_set(),
{
    assert forall|x: Range| a.to_set().contains(x) implies b.to_set().contains(x) by {
        let i = choose|i: int| 0 <= i < a.len() && a[i] == x;
        lemma_entry_shared(a, b, i);
    }
    assert forall|x: Range| b.to_set().contains(x) implies a.to_set().contains(x) by {
        let i = choose|i: int| 0 <= i < b.len() && b[i] == x;
        lemma_entry_shared(b, a, i);
    }
    assert(a.to_set() =~= b.to_set());
}

/// Inserting a range that shares no address with the set, then removing that
/// same range, gives back the entries the set had. `inserted` and `after`
/// are the sets that `insert` and then `remove` leave.
pub proof fn lemma_insert_remove_round_trip(before: RangeSet, r: Range, inserted: RangeSet, after: RangeSet)
    requires
        before.wf(),
        r.valid(),
        before.addrs().disjoint(r.addrs()),
        inserted.wf(),
        inserted.addrs() == before.addrs().union(r.addrs()),
        after.wf(),
        after.addrs() == inserted.addrs().difference(r.addrs()),
    ensures
        after@.to_set() == before@.to_set(),
{
    assert(after.addrs() =~= before.addrs());
    lemma_canonical(after@, before@);
}

/// Inserting the same range twice leaves the entries that inserting it once
/// leaves. `once` and `twice` are the sets after the first and the second
/// `insert`.
pub proof fn lemma_insert_idempotent(before: RangeSet, r: Range, once: RangeSet, twice: RangeSet)
    requires
        before.wf(),
        r.valid(),
        once.wf(),
        once.addrs() == before.addrs().union(r.addrs()),
        twice.wf(),
        twice.addrs() == once.addrs().union(r.addrs()),
    ensures
        twice@.to_set() == once@.to_set(),
{
    assert(twice.addrs() =~= once.addrs());
    lemma_canonical(twice@, once@);
}

} // verus!
