//! A parser for static executable ELF files, little endian, version 1, of
//! either class (32 or 64 bits), and the flattening of their loadable
//! segments into one memory image.
use vstd::prelude::*;

verus! {

/// `EI_CLASS` of a file for 32-bit systems.
pub const BITNESS_32B: u8 = 1;

/// `EI_CLASS` of a file for 64-bit systems.
pub const BITNESS_64B: u8 = 2;

/// Segment flag: executable.
pub const SEGMENT_EXECUTABLE: u32 = 1;

/// Segment flag: writable.
pub const SEGMENT_WRITABLE: u32 = 2;

/// Segment flag: readable.
pub const SEGMENT_READABLE: u32 = 4;

/// The little-endian value of the two bytes at `o`.
pub open spec fn le16(s: Seq<u8>, o: int) -> int {
    s[o] + 0x100 * s[o + 1]
}

/// The little-endian value of the four bytes at `o`.
pub open spec fn le32(s: Seq<u8>, o: int) -> int {
    le16(s, o) + 0x1_0000 * le16(s, o + 2)
}

/// The little-endian value of the eight bytes at `o`.
pub open spec fn le64(s: Seq<u8>, o: int) -> int {
    le32(s, o) + 0x1_0000_0000 * le32(s, o + 4)
}

/// The file is for 32-bit systems (otherwise it is for 64-bit ones).
pub open spec fn is_32(s: Seq<u8>) -> bool {
    s[4] == BITNESS_32B
}

/// The header's fields that the parser reads end here.
pub open spec fn header_end(s: Seq<u8>) -> int {
    if is_32(s) {
        46
    } else {
        56
    }
}

/// Virtual address of the entry point.
pub open spec fn elf_entry(s: Seq<u8>) -> int {
    if is_32(s) {
        le32(s, 24)
    } else {
        le64(s, 24)
    }
}

/// Offset of the program header table.
pub open spec fn elf_phoff(s: Seq<u8>) -> int {
    if is_32(s) {
        le32(s, 28)
    } else {
        le64(s, 32)
    }
}

/// Size of one program header table entry.
pub open spec fn elf_phentsize(s: Seq<u8>) -> int {
    if is_32(s) {
        le16(s, 42)
    } else {
        le16(s, 52)
    }
}

/// Number of program headers.
pub open spec fn elf_phnum(s: Seq<u8>) -> int {
    if is_32(s) {
        le16(s, 44)
    } else {
        le16(s, 54)
    }
}

/// `s` is an ELF file that the parser accepts: the magic number, a known
/// class, little endian, version 1, a complete header, and a program header
/// table that lies inside the file.
pub open spec fn elf_ok(s: Seq<u8>) -> bool {
    &&& s.len() >= 7
    &&& s[0] == 0x7f && s[1] == 0x45 && s[2] == 0x4c && s[3] == 0x46
    &&& s[4] == BITNESS_32B || s[4] == BITNESS_64B
    &&& s[5] == 1
    &&& s[6] == 1
    &&& s.len() >= header_end(s)
    &&& elf_phoff(s) <= usize::MAX
    &&& elf_phentsize(s) * elf_phnum(s) <= usize::MAX
    &&& elf_phoff(s) + elf_phentsize(s) * elf_phnum(s) < s.len()
}

/// What a LOAD program header says, as the parser reads it.
pub struct SegmentInfo {
    pub vaddr: int,
    pub mem_size: int,
    /// Where the segment's bytes start in the file.
    pub file_off: int,
    /// How many of its bytes the file holds: at most `mem_size`.
    pub file_size: int,
    pub flags: int,
}

/// The smaller of two integers.
pub open spec fn min_int(a: int, b: int) -> int {
    if a <= b {
        a
    } else {
        b
    }
}

/// Reading the program header at offset `o`: `None` when a field it needs
/// lies outside the file or does not fit a `usize`, `Some(None)` when it is
/// not a LOAD header, and `Some(Some(info))` for a LOAD header.
pub open spec fn segment_at(s: Seq<u8>, o: int) -> Option<Option<SegmentInfo>> {
    if o + 4 > s.len() {
        None
    } else if le32(s, o) != 1 {
        Some(None)
    } else if is_32(s) {
        if o + 0x1c > s.len() {
            None
        } else {
            let info = SegmentInfo {
                file_off: le32(s, o + 4),
                vaddr: le32(s, o + 8),
                file_size: min_int(le32(s, o + 0x10), le32(s, o + 0x14)),
                mem_size: le32(s, o + 0x14),
                flags: le32(s, o + 0x18),
            };
            if info.file_off + info.file_size > s.len() {
                None
            } else {
                Some(Some(info))
            }
        }
    } else {
        if o + 0x30 > s.len() {
            None
        } else {
            let info = SegmentInfo {
                flags: le32(s, o + 4),
                file_off: le64(s, o + 8),
                vaddr: le64(s, o + 0x10),
                file_size: min_int(le64(s, o + 0x20), le64(s, o + 0x28)),
                mem_size: le64(s, o + 0x28),
            };
            if info.file_off > usize::MAX || info.vaddr > usize::MAX || le64(s, o + 0x20) > usize::MAX
                || info.mem_size > usize::MAX || info.file_off + info.file_size > s.len() {
                None
            } else {
                Some(Some(info))
            }
        }
    }
}

/// Offset of program header `i`.
pub open spec fn phdr_offset(s: Seq<u8>, i: int) -> int {
    elf_phoff(s) + i * elf_phentsize(s)
}

/// The LOAD segments among the first `n` program headers, in table order;
/// `None` when one of those headers cannot be read.
pub open spec fn load_segments(s: Seq<u8>, n: nat) -> Option<Seq<SegmentInfo>>
    decreases n,
{
    if n == 0 {
        Some(Seq::empty())
    } else {
        match load_segments(s, (n - 1) as nat) {
            None => None,
            Some(prev) => match segment_at(s, phdr_offset(s, n - 1)) {
                None => None,
                Some(None) => Some(prev),
                Some(Some(info)) => Some(prev.push(info)),
            },
        }
    }
}

/// Once a header cannot be read, no longer prefix of the table can.
pub proof fn lemma_load_segments_stuck(s: Seq<u8>, i: nat, n: nat)
    requires
        i <= n,
        load_segments(s, i) is None,
    ensures
        load_segments(s, n) is None,
    decreases n - i,
{
    if i < n {
        lemma_load_segments_stuck(s, (i + 1) as nat, n);
    }
}

/// A loadable segment of the file.
pub struct LoadSegment<'a> {
    pub vaddr: usize,
    pub mem_size: usize,
    /// The segment's bytes that the file holds; the rest are zero.
    pub data: &'a [u8],
    pub read: bool,
    pub write: bool,
    pub execute: bool,
}

impl<'a> LoadSegment<'a> {
    /// This segment is what `info` describes in file `s`.
    pub open spec fn describes(&self, info: SegmentInfo, s: Seq<u8>) -> bool {
        &&& self.vaddr == info.vaddr
        &&& self.mem_size == info.mem_size
        &&& self.data@.len() == info.file_size
        &&& self.data@ == s.subrange(info.file_off, info.file_off + info.file_size)
        &&& self.read == ((info.flags as u32 & SEGMENT_READABLE) != 0)
        &&& self.write == ((info.flags as u32 & SEGMENT_WRITABLE) != 0)
        &&& self.execute == ((info.flags as u32 & SEGMENT_EXECUTABLE) != 0)
    }
}

/// The two bytes at `off`, little endian, if they lie inside `b`.
pub(crate) fn read_u16(b: &[u8], off: usize) -> (r: Option<u16>)
    ensures
        r is Some <==> off + 2 <= b@.len(),
        r matches Some(v) ==> v == le16(b@, off as int),
{
    if off > b.len() || b.len() - off < 2 {
        return None;
    }
    let lo = b[off] as u16;
    let hi = b[off + 1] as u16;
    Some(lo + 0x100 * hi)
}

/// The four bytes at `off`, little endian, if they lie inside `b`.
fn read_u32(b: &[u8], off: usize) -> (r: Option<u32>)
    ensures
        r is Some <==> off + 4 <= b@.len(),
        r matches Some(v) ==> v == le32(b@, off as int),
{
    if off > b.len() || b.len() - off < 4 {
        return None;
    }
    let lo = read_u16(b, off).unwrap() as u32;
    let hi = read_u16(b, off + 2).unwrap() as u32;
    Some(lo + 0x1_0000 * hi)
}

/// The eight bytes at `off`, little endian, if they lie inside `b`.
fn read_u64(b: &[u8], off: usize) -> (r: Option<u64>)
    ensures
        r is Some <==> off + 8 <= b@.len(),
        r matches Some(v) ==> v == le64(b@, off as int),
{
    if off > b.len() || b.len() - off < 8 {
        return None;
    }
    let lo = read_u32(b, off).unwrap() as u64;
    let hi = read_u32(b, off + 4).unwrap() as u64;
    Some(lo + 0x1_0000_0000 * hi)
}

/// A validated ELF file, with what the parser read from its header.
pub struct ElfParser<'a> {
    /// The file.
    bytes: &'a [u8],
    /// Offset of the program header table.
    phdr_off: usize,
    /// Size of one program header table entry.
    phent_size: usize,
    /// Number of program headers.
    phdr_num: usize,
    /// `BITNESS_32B` or `BITNESS_64B`.
    bitness: u8,
    /// Virtual address of the entry point.
    pub entry: u64,
}

impl<'a> ElfParser<'a> {
    /// The bytes of the file.
    pub closed spec fn image(&self) -> Seq<u8> {
        self.bytes@
    }

    /// The entry point the parser read.
    pub closed spec fn entry_point(&self) -> u64 {
        self.entry
    }

    /// What the parser read agrees with the file's header.
    pub closed spec fn wf(&self) -> bool {
        let s = self.bytes@;
        &&& elf_ok(s)
        &&& self.bitness == s[4]
        &&& self.phdr_off == elf_phoff(s)
        &&& self.phent_size == elf_phentsize(s)
        &&& self.phdr_num == elf_phnum(s)
        &&& self.entry == elf_entry(s)
    }

    /// Parses an ELF file: `None` unless `elf_ok` holds of it.
    pub fn parse(bytes: &'a [u8]) -> (r: Option<Self>)
        ensures
            r is Some <==> elf_ok(bytes@),
            r matches Some(p) ==> p.wf() && p.image() == bytes@ && p.entry_point() == elf_entry(bytes@),
    {
        // The magic number.
        if bytes.len() < 4 || bytes[0] != 0x7f || bytes[1] != 0x45 || bytes[2] != 0x4c || bytes[3]
            != 0x46 {
            return None;
        }
        if bytes.len() < 5 {
            return None;
        }
        let bitness = bytes[4];
        if bitness != BITNESS_32B && bitness != BITNESS_64B {
            return None;
        }
        // Little endian, and version 1.
        if bytes.len() < 6 || bytes[5] != 1 {
            return None;
        }
        if bytes.len() < 7 || bytes[6] != 1 {
            return None;
        }
        let is32 = bitness == BITNESS_32B;
        let entry: u64 = if is32 {
            match read_u32(bytes, 24) {
                Some(v) => v as u64,
                None => return None,
            }
        } else {
            match read_u64(bytes, 24) {
                Some(v) => v,
                None => return None,
            }
        };
        let phdr_off: u64 = if is32 {
            match read_u32(bytes, 28) {
                Some(v) => v as u64,
                None => return None,
            }
        } else {
            match read_u64(bytes, 32) {
                Some(v) => v,
                None => return None,
            }
        };
        let phent_size = match read_u16(bytes, if is32 { 42 } else { 52 }) {
            Some(v) => v as usize,
            None => return None,
        };
        let phdr_num = match read_u16(bytes, if is32 { 44 } else { 54 }) {
            Some(v) => v as usize,
            None => return None,
        };
        if phdr_off > usize::MAX as u64 {
            return None;
        }
        let phdr_off = phdr_off as usize;
        let table_size = match phent_size.checked_mul(phdr_num) {
            Some(v) => v,
            None => return None,
        };
        let table_end = match phdr_off.checked_add(table_size) {
            Some(v) => v,
            None => return None,
        };
        if table_end >= bytes.len() {
            return None;
        }
        Some(ElfParser { bytes, phdr_off, phent_size, phdr_num, bitness, entry })
    }

    /// The LOAD segments of the file, in program header order; `None` when a
    /// program header cannot be read (see `segment_at`).
    pub fn headers(&self) -> (r: Option<Vec<LoadSegment<'a>>>)
        requires
            self.wf(),
        ensures
            match r {
                None => load_segments(self.image(), elf_phnum(self.image()) as nat) is None,
                Some(v) => load_segments(self.image(), elf_phnum(self.image()) as nat) matches Some(ss)
                    && v@.len() == ss.len() && forall|i: int|
                    0 <= i < v@.len() ==> (#[trigger] v@[i]).describes(ss[i], self.image()),
            },
    {
        let bytes = self.bytes;
        let ghost s = bytes@;
        let len = bytes.len();
        let mut out: Vec<LoadSegment<'a>> = Vec::new();
        let mut phdr: usize = 0;
        while phdr < self.phdr_num
            invariant
                self.wf(),
                bytes == self.bytes,
                s == bytes@,
                len == s.len(),
                phdr <= self.phdr_num,
                load_segments(s, phdr as nat) matches Some(ss) && out@.len() == ss.len() && forall|i: int|
                    0 <= i < out@.len() ==> (#[trigger] out@[i]).describes(ss[i], s),
            decreases self.phdr_num - phdr,
        {
            let ghost ss = load_segments(s, phdr as nat)->0;
            proof {
                assert(phdr * self.phent_size <= self.phdr_num * self.phent_size) by (nonlinear_arith)
                    requires
                        phdr < self.phdr_num,
                ;
                assert(self.phent_size * self.phdr_num == self.phdr_num * self.phent_size) by (
                nonlinear_arith);
                assert(elf_ok(s));
                assert(self.phdr_off + self.phent_size * self.phdr_num < s.len());
                assert(phdr * self.phent_size <= self.phent_size * self.phdr_num);
            }
            // In bounds: the table lies inside the file.
            let step = phdr * self.phent_size;
            let seg_off = self.phdr_off + step;
            assert(seg_off == phdr_offset(s, phdr as int));
            assert(load_segments(s, (phdr + 1) as nat) == match segment_at(s, seg_off as int) {
                None => None,
                Some(None) => Some(ss),
                Some(Some(info)) => Some(ss.push(info)),
            });
            let typ = match read_u32(bytes, seg_off) {
                Some(v) => v,
                None => {
                    proof {
                        lemma_load_segments_stuck(s, (phdr + 1) as nat, self.phdr_num as nat);
                    }
                    return None;
                },
            };
            if typ == 1 {
                let got = self.read_segment(seg_off);
                match got {
                    None => {
                        proof {
                            lemma_load_segments_stuck(s, (phdr + 1) as nat, self.phdr_num as nat);
                        }
                        return None;
                    },
                    Some(seg) => {
                        let ghost info = segment_at(s, seg_off as int)->0->0;
                        let ghost prev = out@;
                        out.push(seg);
                        proof {
                            assert forall|i: int| 0 <= i < out@.len() implies (#[trigger] out@[i]).describes(
                                ss.push(info)[i],
                                s,
                            ) by {
                                if i < ss.len() {
                                    assert(out@[i] == prev[i]);
                                }
                            }
                        }
                    },
                }
            }
            phdr = phdr + 1;
        }
        Some(out)
    }

    /// Reads the LOAD program header at `o`.
    fn read_segment(&self, o: usize) -> (r: Option<LoadSegment<'a>>)
        requires
            self.wf(),
            o + 4 <= self.image().len(),
            le32(self.image(), o as int) == 1,
        ensures
            match r {
                None => segment_at(self.image(), o as int) is None,
                Some(seg) => segment_at(self.image(), o as int) matches Some(Some(info)) && seg.describes(
                    info,
                    self.image(),
                ),
            },
    {
        let bytes = self.bytes;
        let flags: u32;
        let f_off: usize;
        let f_sz: usize;
        let vaddr: usize;
        let mem_sz: usize;
        if self.bitness == BITNESS_32B {
            if o > bytes.len() || bytes.len() - o < 0x1c {
                return None;
            }
            f_off = read_u32(bytes, o + 4).unwrap() as usize;
            vaddr = read_u32(bytes, o + 8).unwrap() as usize;
            f_sz = read_u32(bytes, o + 0x10).unwrap() as usize;
            mem_sz = read_u32(bytes, o + 0x14).unwrap() as usize;
            flags = read_u32(bytes, o + 0x18).unwrap();
        } else {
            if o > bytes.len() || bytes.len() - o < 0x30 {
                return None;
            }
            flags = read_u32(bytes, o + 4).unwrap();
            let f_off64 = read_u64(bytes, o + 8).unwrap();
            let vaddr64 = read_u64(bytes, o + 0x10).unwrap();
            let f_sz64 = read_u64(bytes, o + 0x20).unwrap();
            let mem_sz64 = read_u64(bytes, o + 0x28).unwrap();
            if f_off64 > usize::MAX as u64 || vaddr64 > usize::MAX as u64 || f_sz64 > usize::MAX as u64
                || mem_sz64 > usize::MAX as u64 {
                return None;
            }
            f_off = f_off64 as usize;
            vaddr = vaddr64 as usize;
            f_sz = f_sz64 as usize;
            mem_sz = mem_sz64 as usize;
        }
        // The file holds at most the segment's size.
        let f_sz = if f_sz <= mem_sz { f_sz } else { mem_sz };
        if f_off > bytes.len() || bytes.len() - f_off < f_sz {
            return None;
        }
        let data = vstd::slice::slice_subrange(bytes, f_off, f_off + f_sz);
        Some(LoadSegment {
            vaddr,
            mem_size: mem_sz,
            data,
            read: (flags & SEGMENT_READABLE) != 0,
            write: (flags & SEGMENT_WRITABLE) != 0,
            execute: (flags & SEGMENT_EXECUTABLE) != 0,
        })
    }
}

/// A segment that counts toward the image's bounds: it is not empty and its
/// last address is a `usize`.
pub open spec fn bounds_segment(g: SegmentInfo) -> bool {
    g.mem_size > 0 && g.vaddr + g.mem_size - 1 <= usize::MAX
}

/// The lowest first address and the highest last address of the segments
/// among the first `n` that count toward the bounds; `None` if none does.
pub open spec fn image_bounds(ss: Seq<SegmentInfo>, n: nat) -> Option<(int, int)>
    decreases n,
{
    if n == 0 {
        None
    } else {
        let g = ss[n - 1];
        let prev = image_bounds(ss, (n - 1) as nat);
        if !bounds_segment(g) {
            prev
        } else {
            let last = g.vaddr + g.mem_size - 1;
            match prev {
                None => Some((g.vaddr, last)),
                Some((lo, hi)) => Some(
                    (if g.vaddr < lo { g.vaddr } else { lo }, if last > hi { last } else { hi }),
                ),
            }
        }
    }
}

/// The image of `size` bytes from address `start` after copying the file
/// bytes of the first `n` segments into it, in order, over zeros. A segment
/// that starts below `start`, or whose bytes run past the image, spoils it;
/// one whose bytes would end past the address space is passed over.
pub open spec fn paint(ss: Seq<SegmentInfo>, s: Seq<u8>, start: int, size: int, n: nat) -> Option<Seq<u8>>
    decreases n,
{
    if n == 0 {
        Some(Seq::new(size as nat, |i: int| 0u8))
    } else {
        match paint(ss, s, start, size, (n - 1) as nat) {
            None => None,
            Some(img) => {
                let g = ss[n - 1];
                let at = g.vaddr - start;
                if g.vaddr < start {
                    None
                } else if at + g.file_size > usize::MAX {
                    Some(img)
                } else if at + g.file_size > size {
                    None
                } else {
                    Some(img.update_subrange_with(at, s.subrange(g.file_off, g.file_off + g.file_size)))
                }
            },
        }
    }
}

/// The flat image of ELF file `s`: its entry point, its base address and its
/// bytes, or `None` when the file cannot be flattened.
pub open spec fn flat_image(s: Seq<u8>) -> Option<(u32, u32, Seq<u8>)> {
    if !elf_ok(s) {
        None
    } else {
        match load_segments(s, elf_phnum(s) as nat) {
            None => None,
            Some(ss) => match image_bounds(ss, ss.len()) {
                None => None,
                Some((lo, hi)) => if hi - lo + 1 > usize::MAX {
                    None
                } else {
                    match paint(ss, s, lo, hi - lo + 1, ss.len()) {
                        None => None,
                        Some(img) => {
                            let entry = elf_entry(s);
                            if entry < lo || entry > hi || entry > u32::MAX || lo > u32::MAX {
                                None
                            } else {
                                Some((entry as u32, lo as u32, img))
                            }
                        },
                    }
                },
            },
        }
    }
}

/// Lays the loadable segments of ELF file `elf` out as one flat image, as a
/// loader that copies it to its base address would find memory. Returns the
/// entry point, the base address and the image.
pub fn flatten_elf(elf: &[u8]) -> (r: Option<(u32, u32, Vec<u8>)>)
    ensures
        match r {
            Some((entry, base, img)) => flat_image(elf@) == Some((entry, base, img@)),
            None => flat_image(elf@) is None,
        },
{
    let ghost s = elf@;
    let parser = match ElfParser::parse(elf) {
        Some(p) => p,
        None => return None,
    };
    let segs = match parser.headers() {
        Some(v) => v,
        None => return None,
    };
    let ghost ss = load_segments(s, elf_phnum(s) as nat)->0;
    // The bounds of the image.
    let mut bounds: Option<(usize, usize)> = None;
    let mut i: usize = 0;
    while i < segs.len()
        invariant
            segs@.len() == ss.len(),
            forall|k: int| 0 <= k < segs@.len() ==> (#[trigger] segs@[k]).describes(ss[k], s),
            i <= segs@.len(),
            match bounds {
                None => image_bounds(ss, i as nat) is None,
                Some((lo, hi)) => lo <= hi && image_bounds(ss, i as nat) == Some((lo as int, hi as int)),
            },
        decreases segs@.len() - i,
    {
        let g = &segs[i];
        assert(g.describes(ss[i as int], s));
        if g.mem_size > 0 && g.vaddr <= usize::MAX - (g.mem_size - 1) {
            let last = g.vaddr + (g.mem_size - 1);
            bounds = match bounds {
                None => Some((g.vaddr, last)),
                Some((lo, hi)) => Some(
                    (if g.vaddr < lo { g.vaddr } else { lo }, if last > hi { last } else { hi }),
                ),
            };
        }
        i = i + 1;
    }
    let (lo, hi) = match bounds {
        Some(b) => b,
        None => return None,
    };
    assert(ss.len() == segs@.len());
    if hi - lo == usize::MAX {
        return None;
    }
    let size = hi - lo + 1;
    let mut flat: Vec<u8> = Vec::new();
    let mut k: usize = 0;
    while k < size
        invariant
            k <= size,
            flat@ == Seq::new(k as nat, |j: int| 0u8),
        decreases size - k,
    {
        flat.push(0u8);
        assert(flat@ =~= Seq::new((k + 1) as nat, |j: int| 0u8));
        k = k + 1;
    }
    // Copy each segment's file bytes into place.
    let mut i: usize = 0;
    while i < segs.len()
        invariant
            segs@.len() == ss.len(),
            forall|k: int| 0 <= k < segs@.len() ==> (#[trigger] segs@[k]).describes(ss[k], s),
            i <= segs@.len(),
            s == elf@,
            elf_ok(s),
            parser.entry_point() == elf_entry(s),
            load_segments(s, elf_phnum(s) as nat) == Some(ss),
            image_bounds(ss, ss.len()) == Some((lo as int, hi as int)),
            lo <= hi,
            size == hi - lo + 1,
            flat@.len() == size,
            paint(ss, s, lo as int, size as int, i as nat) == Some(flat@),
        decreases segs@.len() - i,
    {
        let g = &segs[i];
        assert(g.describes(ss[i as int], s));
        if g.vaddr < lo {
            proof {
                assert(paint(ss, s, lo as int, size as int, (i + 1) as nat) is None);
                lemma_paint_stuck(ss, s, lo as int, size as int, (i + 1) as nat, ss.len());
            }
            return None;
        }
        let at = g.vaddr - lo;
        let n = g.data.len();
        if at <= usize::MAX - n {
            if at + n > size {
                proof {
                    assert(paint(ss, s, lo as int, size as int, (i + 1) as nat) is None);
                    lemma_paint_stuck(ss, s, lo as int, size as int, (i + 1) as nat, ss.len());
                }
                return None;
            }
            let ghost before = flat@;
            let mut j: usize = 0;
            while j < n
                invariant
                    n == g.data@.len(),
                    at + n <= size,
                    flat@.len() == size,
                    j <= n,
                    flat@ == before.update_subrange_with(at as int, g.data@.subrange(0, j as int)),
                decreases n - j,
            {
                flat[at + j] = g.data[j];
                assert(flat@ =~= before.update_subrange_with(at as int, g.data@.subrange(0, j + 1)));
                j = j + 1;
            }
            assert(g.data@.subrange(0, n as int) =~= g.data@);
        }
        assert(paint(ss, s, lo as int, size as int, (i + 1) as nat) == Some(flat@));
        i = i + 1;
    }
    let entry = parser.entry;
    if entry < lo as u64 || entry > hi as u64 || entry > u32::MAX as u64 || lo > u32::MAX as usize {
        return None;
    }
    Some((entry as u32, lo as u32, flat))
}

/// Once the image is spoiled it stays spoiled.
pub proof fn lemma_paint_stuck(ss: Seq<SegmentInfo>, s: Seq<u8>, start: int, size: int, i: nat, n: nat)
    requires
        i <= n,
        paint(ss, s, start, size, i) is None,
    ensures
        paint(ss, s, start, size, n) is None,
    decreases n - i,
{
    if i < n {
        lemma_paint_stuck(ss, s, start, size, (i + 1) as nat, n);
    }
}

} // verus!
