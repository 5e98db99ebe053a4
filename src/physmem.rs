//! The physical memory allocator built on a range set: populating the set
//! from the firmware's memory map, and serving allocate/free requests from
//! the one shared set once it exists.
use vstd::prelude::*;

use crate::error::MemError;
use crate::range::Range;
use crate::range_set::{allocate_outcome, insert_outcome, lemma_apart_le_len, span_addrs, RangeSet};

verus! {

/// The memory-map type that marks a span as usable.
pub const USABLE: u8 = 1;

/// The last address of the low region (the first MiB), which is never handed
/// out whatever the memory map says.
pub const LOW_MEMORY_END: u64 = 0xF_FFFF;

/// One span reported by the firmware's memory map.
#[derive(Clone, Copy, Debug, PartialEq, Eq, Structural)]
pub struct MemoryDescriptor {
    pub base: u64,
    pub size: u64,
    pub typ: u8,
}

impl MemoryDescriptor {
    /// A non-empty span that may be used.
    pub open spec fn usable(self) -> bool {
        self.typ == USABLE && self.size > 0
    }

    /// A non-empty span that may not be used.
    pub open spec fn reserved(self) -> bool {
        self.typ != USABLE && self.size > 0
    }

    /// The span's last address is a 64-bit address.
    pub open spec fn representable(self) -> bool {
        self.size == 0 || self.base + self.size - 1 <= u64::MAX
    }

    /// Address `p` lies in the span.
    pub open spec fn has(self, p: int) -> bool {
        self.base <= p < self.base + self.size
    }
}

/// The addresses of the usable spans among the first `n` descriptors.
pub open spec fn usable_addrs(ds: Seq<MemoryDescriptor>, n: int) -> Set<int> {
    Set::new(|p: int| exists|k: int| 0 <= k < n && (#[trigger] ds[k]).usable() && ds[k].has(p))
}

/// The addresses of the reserved spans among the first `n` descriptors.
pub open spec fn reserved_addrs(ds: Seq<MemoryDescriptor>, n: int) -> Set<int> {
    Set::new(|p: int| exists|k: int| 0 <= k < n && (#[trigger] ds[k]).reserved() && ds[k].has(p))
}

/// How many of the first `n` descriptors are usable.
pub open spec fn count_usable(ds: Seq<MemoryDescriptor>, n: nat) -> nat
    decreases n,
{
    if n == 0 {
        0
    } else {
        count_usable(ds, (n - 1) as nat) + if ds[n - 1].usable() {
            1nat
        } else {
            0nat
        }
    }
}

/// How many of the first `n` descriptors are reserved.
pub open spec fn count_reserved(ds: Seq<MemoryDescriptor>, n: nat) -> nat
    decreases n,
{
    if n == 0 {
        0
    } else {
        count_reserved(ds, (n - 1) as nat) + if ds[n - 1].reserved() {
            1nat
        } else {
            0nat
        }
    }
}

/// No descriptor is both usable and reserved.
proof fn lemma_count_split(ds: Seq<MemoryDescriptor>, n: nat)
    ensures
        count_usable(ds, n) + count_reserved(ds, n) <= n,
    decreases n,
{
    if n > 0 {
        lemma_count_split(ds, (n - 1) as nat);
    }
}

proof fn lemma_count_reserved_mono(ds: Seq<MemoryDescriptor>, i: nat, n: nat)
    requires
        i <= n,
    ensures
        count_reserved(ds, i) <= count_reserved(ds, n),
    decreases n - i,
{
    if i < n {
        lemma_count_reserved_mono(ds, i, (n - 1) as nat);
    }
}

/// The free memory that a memory map describes: what some descriptor calls
/// usable and none calls reserved, less the low region.
pub open spec fn free_addrs(ds: Seq<MemoryDescriptor>) -> Set<int> {
    usable_addrs(ds, ds.len() as int).difference(reserved_addrs(ds, ds.len() as int)).difference(
        span_addrs(0, LOW_MEMORY_END as int),
    )
}

/// The range a non-empty, representable descriptor covers.
fn span_of_descriptor(d: &MemoryDescriptor) -> (r: Range)
    requires
        d.size > 0,
        d.representable(),
    ensures
        r.valid(),
        r.addrs() == Set::new(|p: int| d.has(p)),
{
    let r = Range::new(d.base, d.base + (d.size - 1));
    assert(r.addrs() =~= Set::new(|p: int| d.has(p)));
    r
}

/// Builds the set of free memory from a memory map. A first pass inserts
/// every usable span, a second removes every reserved one (a span reported
/// both ways stays reserved), and the low region is removed last.
///
/// Fails with `Unrepresentable` exactly when a non-empty span ends past the
/// 64-bit address space, and with `CapacityExceeded` only when the set runs
/// out of entries, which a map of fewer than 256 spans never makes it do.
pub fn populate(descriptors: &[MemoryDescriptor]) -> (r: Result<RangeSet, MemError>)
    ensures
        r matches Ok(set) ==> set.wf() && set.addrs() == free_addrs(descriptors@),
        r == Err::<RangeSet, MemError>(MemError::Unrepresentable) <==> exists|i: int|
            0 <= i < descriptors@.len() && !(#[trigger] descriptors@[i]).representable(),
        r matches Err(e) ==> e == MemError::Unrepresentable || e == MemError::CapacityExceeded,
        descriptors@.len() < 256 ==> !(r == Err::<RangeSet, MemError>(MemError::CapacityExceeded)),
{
    let ghost ds = descriptors@;
    let n = descriptors.len();
    let mut i: usize = 0;
    while i < n
        invariant
            ds == descriptors@,
            n == ds.len(),
            i <= n,
            forall|k: int| 0 <= k < i ==> (#[trigger] ds[k]).representable(),
        decreases n - i,
    {
        let d = descriptors[i];
        if d.size > 0 && d.base > u64::MAX - (d.size - 1) {
            return Err(MemError::Unrepresentable);
        }
        i = i + 1;
    }
    let mut set = RangeSet::new();
    // Usable spans first.
    let mut i: usize = 0;
    while i < n
        invariant
            ds == descriptors@,
            n == ds.len(),
            i <= n,
            forall|k: int| 0 <= k < n ==> (#[trigger] ds[k]).representable(),
            set.wf(),
            set.addrs() == usable_addrs(ds, i as int),
            set@.len() <= count_usable(ds, i as nat),
            count_usable(ds, i as nat) <= i,
        decreases n - i,
    {
        let d = descriptors[i];
        if d.typ == USABLE && d.size > 0 {
            let span = span_of_descriptor(&d);
            let ghost before = set;
            let res = set.try_insert(span);
            proof {
                assert(insert_outcome(before, set, span, res));
                lemma_apart_le_len(before@, span);
            }
            if res.is_err() {
                return Err(MemError::CapacityExceeded);
            }
        }
        proof {
            assert(set.addrs() =~= usable_addrs(ds, i + 1));
            assert(count_usable(ds, (i + 1) as nat) == count_usable(ds, i as nat) + if ds[i as int].usable() {
                1nat
            } else {
                0nat
            });
        }
        i = i + 1;
    }
    // Then reserved spans, which win over usable ones.
    let ghost usable = usable_addrs(ds, n as int);
    proof {
        lemma_count_split(ds, n as nat);
    }
    let mut i: usize = 0;
    while i < n
        invariant
            ds == descriptors@,
            n == ds.len(),
            i <= n,
            forall|k: int| 0 <= k < n ==> (#[trigger] ds[k]).representable(),
            usable == usable_addrs(ds, n as int),
            set.wf(),
            set.addrs() == usable.difference(reserved_addrs(ds, i as int)),
            set@.len() <= count_usable(ds, n as nat) + count_reserved(ds, i as nat),
            count_usable(ds, n as nat) + count_reserved(ds, n as nat) <= n,
        decreases n - i,
    {
        let d = descriptors[i];
        proof {
            lemma_count_reserved_mono(ds, (i + 1) as nat, n as nat);
        }
        if d.typ != USABLE && d.size > 0 {
            let span = span_of_descriptor(&d);
            let res = set.try_remove(span);
            if res.is_err() {
                return Err(MemError::CapacityExceeded);
            }
        }
        proof {
            assert(set.addrs() =~= usable.difference(reserved_addrs(ds, i + 1)));
        }
        i = i + 1;
    }
    // The low region is never free.
    let low = Range::new(0, LOW_MEMORY_END);
    if set.try_remove(low).is_err() {
        return Err(MemError::CapacityExceeded);
    }
    proof {
        assert(low.addrs() =~= span_addrs(0, LOW_MEMORY_END as int));
    }
    Ok(set)
}

/// Serves a request for `size` bytes aligned to `align` from the shared set,
/// which is `None` until the memory map has been read.
pub fn allocate(mem: &mut Option<RangeSet>, size: u64, align: u64) -> (r: Result<usize, MemError>)
    requires
        *old(mem) matches Some(s) ==> s.wf(),
    ensures
        *old(mem) is None ==> r == Err::<usize, MemError>(MemError::Uninitialized) && *final(mem) == *old(
            mem,
        ),
        *old(mem) is Some ==> {
            &&& *final(mem) is Some
            &&& allocate_outcome((*old(mem))->0, (*final(mem))->0, size, align, None, r)
        },
{
    match mem {
        Some(set) => set.try_allocate(size, align, None),
        None => Err(MemError::Uninitialized),
    }
}

/// Gives the `size` bytes from `ptr` back to the shared set.
pub fn free(mem: &mut Option<RangeSet>, ptr: u64, size: u64) -> (r: Result<(), MemError>)
    requires
        *old(mem) matches Some(s) ==> s.wf(),
    ensures
        r is Err ==> *final(mem) == *old(mem),
        *old(mem) is None ==> r == Err::<(), MemError>(MemError::Uninitialized),
        *old(mem) is Some && size == 0 ==> r == Err::<(), MemError>(MemError::InvalidRange),
        *old(mem) is Some && size > 0 && ptr + size - 1 > u64::MAX ==> r == Err::<(), MemError>(
            MemError::Unrepresentable,
        ),
        *old(mem) is Some && size > 0 && ptr + size - 1 <= u64::MAX ==> {
            &&& *final(mem) is Some
            &&& insert_outcome(
                (*old(mem))->0,
                (*final(mem))->0,
                (Range { start: ptr, end: (ptr + size - 1) as u64 }),
                r,
            )
        },
{
    match mem {
        Some(set) => {
            if size == 0 {
                return Err(MemError::InvalidRange);
            }
            if ptr > u64::MAX - (size - 1) {
                return Err(MemError::Unrepresentable);
            }
            set.try_insert(Range { start: ptr, end: ptr + (size - 1) })
        },
        None => Err(MemError::Uninitialized),
    }
}

} // verus!
