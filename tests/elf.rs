use bootmem::elf::{flatten_elf, ElfParser};

fn put(buf: &mut Vec<u8>, off: usize, value: u64, width: usize) {
    if buf.len() < off + width {
        buf.resize(off + width, 0);
    }
    for i in 0..width {
        buf[off + i] = (value >> (8 * i)) as u8;
    }
}

/// (type, flags, file offset, vaddr, file size, memory size)
type Phdr = (u32, u32, u64, u64, u64, u64);

fn elf64(entry: u64, phdrs: &[Phdr], data: &[(usize, &[u8])]) -> Vec<u8> {
    let mut b = vec![0u8; 64];
    b[0..4].copy_from_slice(b"\x7FELF");
    b[4] = 2;
    b[5] = 1;
    b[6] = 1;
    put(&mut b, 24, entry, 8);
    put(&mut b, 32, 64, 8);
    put(&mut b, 52, 56, 2);
    put(&mut b, 54, phdrs.len() as u64, 2);
    for (i, &(typ, flags, off, vaddr, filesz, memsz)) in phdrs.iter().enumerate() {
        let o = 64 + 56 * i;
        put(&mut b, o, typ as u64, 4);
        put(&mut b, o + 4, flags as u64, 4);
        put(&mut b, o + 8, off, 8);
        put(&mut b, o + 0x10, vaddr, 8);
        put(&mut b, o + 0x20, filesz, 8);
        put(&mut b, o + 0x28, memsz, 8);
        put(&mut b, o + 0x30, 0, 8);
    }
    for &(at, bytes) in data {
        if b.len() < at + bytes.len() {
            b.resize(at + bytes.len(), 0);
        }
        b[at..at + bytes.len()].copy_from_slice(bytes);
    }
    b
}

fn elf32(entry: u32, phdrs: &[Phdr], data: &[(usize, &[u8])]) -> Vec<u8> {
    let mut b = vec![0u8; 52];
    b[0..4].copy_from_slice(b"\x7FELF");
    b[4] = 1;
    b[5] = 1;
    b[6] = 1;
    put(&mut b, 24, entry as u64, 4);
    put(&mut b, 28, 52, 4);
    put(&mut b, 42, 32, 2);
    put(&mut b, 44, phdrs.len() as u64, 2);
    for (i, &(typ, flags, off, vaddr, filesz, memsz)) in phdrs.iter().enumerate() {
        let o = 52 + 32 * i;
        put(&mut b, o, typ as u64, 4);
        put(&mut b, o + 4, off, 4);
        put(&mut b, o + 8, vaddr, 4);
        put(&mut b, o + 12, vaddr, 4);
        put(&mut b, o + 16, filesz, 4);
        put(&mut b, o + 20, memsz, 4);
        put(&mut b, o + 24, flags as u64, 4);
        put(&mut b, o + 28, 0, 4);
    }
    for &(at, bytes) in data {
        if b.len() < at + bytes.len() {
            b.resize(at + bytes.len(), 0);
        }
        b[at..at + bytes.len()].copy_from_slice(bytes);
    }
    b
}

fn two_segments() -> Vec<u8> {
    elf64(
        0x1002,
        &[(1, 5, 176, 0x1000, 4, 8), (1, 6, 180, 0x1010, 2, 4)],
        &[(176, &[1, 2, 3, 4]), (180, &[9, 9])],
    )
}

#[test]
fn parse_reads_entry_point() {
    let file = two_segments();
    let elf = ElfParser::parse(&file).unwrap();
    assert_eq!(elf.entry, 0x1002);
}

#[test]
fn parse_rejects_bad_files() {
    let good = two_segments();
    let mut bad_magic = good.clone();
    bad_magic[1] = b'e';
    assert!(ElfParser::parse(&bad_magic).is_none());
    let mut bad_class = good.clone();
    bad_class[4] = 3;
    assert!(ElfParser::parse(&bad_class).is_none());
    let mut big_endian = good.clone();
    big_endian[5] = 2;
    assert!(ElfParser::parse(&big_endian).is_none());
    let mut bad_version = good.clone();
    bad_version[6] = 0;
    assert!(ElfParser::parse(&bad_version).is_none());
    assert!(ElfParser::parse(&good[..40]).is_none());
    assert!(ElfParser::parse(&good[..3]).is_none());
    assert!(ElfParser::parse(&[]).is_none());
    // The program header table runs past the end of the file.
    assert!(ElfParser::parse(&good[..176]).is_none());
    assert!(ElfParser::parse(&good[..177]).is_some());
}

#[test]
fn headers_lists_load_segments() {
    let file = elf64(
        0x1002,
        &[(1, 5, 176, 0x1000, 4, 8), (4, 4, 0, 0, 0, 0), (1, 6, 180, 0x1010, 2, 4)],
        &[(232, &[0; 8])],
    );
    let mut file = file;
    file[176 + 56..176 + 60].copy_from_slice(&[0, 0, 0, 0]);
    let elf = ElfParser::parse(&file).unwrap();
    let segs = elf.headers().unwrap();
    assert_eq!(segs.len(), 2);
    assert_eq!(segs[0].vaddr, 0x1000);
    assert_eq!(segs[0].mem_size, 8);
    assert_eq!(segs[0].data.len(), 4);
    assert!(segs[0].read && !segs[0].write && segs[0].execute);
    assert_eq!(segs[1].vaddr, 0x1010);
    assert_eq!(segs[1].mem_size, 4);
    assert!(segs[1].read && segs[1].write && !segs[1].execute);
}

#[test]
fn headers_caps_file_size_at_memory_size() {
    let file = elf64(0x2000, &[(1, 4, 120, 0x2000, 6, 3)], &[(120, &[7, 7, 7, 8, 8, 8])]);
    let elf = ElfParser::parse(&file).unwrap();
    let segs = elf.headers().unwrap();
    assert_eq!(segs[0].data, &[7, 7, 7][..]);
}

#[test]
fn headers_fails_on_data_past_end() {
    let file = elf64(0x2000, &[(1, 4, 120, 0x2000, 64, 64)], &[(120, &[1, 2])]);
    let elf = ElfParser::parse(&file).unwrap();
    assert!(elf.headers().is_none());
}

#[test]
fn flatten_lays_out_segments() {
    let file = two_segments();
    let (entry, base, image) = flatten_elf(&file).unwrap();
    assert_eq!(entry, 0x1002);
    assert_eq!(base, 0x1000);
    let mut expected = vec![0u8; 0x14];
    expected[0..4].copy_from_slice(&[1, 2, 3, 4]);
    expected[0x10..0x12].copy_from_slice(&[9, 9]);
    assert_eq!(image, expected);
}

#[test]
fn flatten_later_segment_overwrites_earlier() {
    let file = elf32(
        0x3000,
        &[(1, 4, 116, 0x3000, 4, 4), (1, 4, 120, 0x3002, 2, 2)],
        &[(116, &[1, 1, 1, 1]), (120, &[5, 6])],
    );
    let (entry, base, image) = flatten_elf(&file).unwrap();
    assert_eq!((entry, base), (0x3000, 0x3000));
    assert_eq!(image, vec![1, 1, 5, 6]);
}

#[test]
fn flatten_rejects_entry_outside_image() {
    let file = elf64(0x5000, &[(1, 5, 120, 0x1000, 2, 2)], &[(120, &[1, 2])]);
    assert!(flatten_elf(&file).is_none());
}

#[test]
fn flatten_needs_a_segment() {
    let file = elf64(0x1000, &[(2, 5, 0, 0x1000, 0, 0)], &[(120, &[0])]);
    assert!(flatten_elf(&file).is_none());
}
