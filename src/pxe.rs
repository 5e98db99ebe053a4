//! The checks and decisions of a TFTP download over the 16-bit PXE API:
//! validating the PXENV+ and !PXE structures the firmware points to, reading
//! the server address from the cached DHCP packet, and judging each block
//! that a TFTP read returns. The firmware calls themselves are made by the
//! boot stage.
use vstd::prelude::*;

use crate::elf::{le16, read_u16};

verus! {

/// Size of the PXENV+ structure.
pub const PXENV_LEN: usize = 0x2c;

/// Size of the !PXE structure.
pub const PXE_LEN: usize = 0x58;

/// The lowest PXE version whose 16-bit API is used.
pub const MIN_PXE_VERSION: u16 = 0x201;

/// Size of every TFTP block.
pub const BLOCK_SIZE: usize = 512;

/// Linear address of real-mode `seg:off`.
pub fn seg_off(seg: u16, off: u16) -> (r: usize)
    ensures
        r == seg * 16 + off,
{
    seg as usize * 0x10 + off as usize
}

/// The sum of the bytes of `s`.
pub open spec fn byte_sum(s: Seq<u8>) -> int
    decreases s.len(),
{
    if s.len() == 0 {
        0
    } else {
        byte_sum(s.drop_last()) + s.last()
    }
}

/// The bytes of `s` add up to zero modulo 256.
fn checksum_ok(s: &[u8]) -> (r: bool)
    ensures
        r == (byte_sum(s@) % 256 == 0),
{
    let mut acc: u8 = 0;
    let mut i: usize = 0;
    while i < s.len()
        invariant
            i <= s@.len(),
            acc == byte_sum(s@.subrange(0, i as int)) % 256,
        decreases s@.len() - i,
    {
        proof {
            let next = s@.subrange(0, i + 1);
            assert(next.drop_last() =~= s@.subrange(0, i as int));
            assert(next.last() == s@[i as int]);
        }
        acc = acc.wrapping_add(s[i]);
        i = i + 1;
    }
    assert(s@.subrange(0, s@.len() as int) =~= s@);
    acc == 0
}

/// `s` is a valid PXENV+ structure: its signature, a version the 16-bit API
/// serves, its length, and a zero checksum.
pub open spec fn pxenv_ok(s: Seq<u8>) -> bool {
    &&& s.len() == PXENV_LEN
    &&& s.subrange(0, 6) == seq![0x50u8, 0x58, 0x45, 0x4e, 0x56, 0x2b]
    &&& le16(s, 6) >= MIN_PXE_VERSION
    &&& s[8] == PXENV_LEN
    &&& byte_sum(s) % 256 == 0
}

/// `s` is a valid !PXE structure whose API entry point has a non-zero code
/// segment.
pub open spec fn pxe_ok(s: Seq<u8>) -> bool {
    &&& s.len() == PXE_LEN
    &&& s.subrange(0, 4) == seq![0x21u8, 0x50, 0x58, 0x45]
    &&& s[4] == PXE_LEN
    &&& byte_sum(s) % 256 == 0
    &&& le16(s, 0x12) != 0
}

/// Checks a PXENV+ structure and returns where its !PXE structure lies, as
/// `(segment, offset)`.
pub fn check_pxenv(s: &[u8]) -> (r: Option<(u16, u16)>)
    ensures
        r is Some <==> pxenv_ok(s@),
        r matches Some((seg, off)) ==> seg == le16(s@, 0x2a) && off == le16(s@, 0x28),
{
    if s.len() != PXENV_LEN {
        return None;
    }
    let signature_ok = s[0] == 0x50 && s[1] == 0x58 && s[2] == 0x45 && s[3] == 0x4e && s[4] == 0x56
        && s[5] == 0x2b;
    assert(signature_ok <==> s@.subrange(0, 6) == seq![0x50u8, 0x58, 0x45, 0x4e, 0x56, 0x2b]) by {
        if s@.subrange(0, 6) == seq![0x50u8, 0x58, 0x45, 0x4e, 0x56, 0x2b] {
            assert(s@.subrange(0, 6)[0] == s@[0]);
            assert(s@.subrange(0, 6)[5] == s@[5]);
        }
        if signature_ok {
            assert(s@.subrange(0, 6) =~= seq![0x50u8, 0x58, 0x45, 0x4e, 0x56, 0x2b]);
        }
    }
    let version = read_u16(s, 6).unwrap();
    let sum_ok = checksum_ok(s);
    if !signature_ok || version < MIN_PXE_VERSION || s[8] as usize != PXENV_LEN || !sum_ok {
        return None;
    }
    let off = read_u16(s, 0x28).unwrap();
    let seg = read_u16(s, 0x2a).unwrap();
    Some((seg, off))
}

/// Checks a !PXE structure and returns its API entry point, as
/// `(segment, offset)`.
pub fn check_pxe(s: &[u8]) -> (r: Option<(u16, u16)>)
    ensures
        r is Some <==> pxe_ok(s@),
        r matches Some((seg, off)) ==> seg == le16(s@, 0x12) && off == le16(s@, 0x10),
{
    if s.len() != PXE_LEN {
        return None;
    }
    let signature_ok = s[0] == 0x21 && s[1] == 0x50 && s[2] == 0x58 && s[3] == 0x45;
    assert(signature_ok <==> s@.subrange(0, 4) == seq![0x21u8, 0x50, 0x58, 0x45]) by {
        if s@.subrange(0, 4) == seq![0x21u8, 0x50, 0x58, 0x45] {
            assert(s@.subrange(0, 4)[0] == s@[0]);
            assert(s@.subrange(0, 4)[3] == s@[3]);
        }
        if signature_ok {
            assert(s@.subrange(0, 4) =~= seq![0x21u8, 0x50, 0x58, 0x45]);
        }
    }
    let sum_ok = checksum_ok(s);
    if !signature_ok || s[4] as usize != PXE_LEN || !sum_ok {
        return None;
    }
    let off = read_u16(s, 0x10).unwrap();
    let seg = read_u16(s, 0x12).unwrap();
    if seg == 0 {
        return None;
    }
    Some((seg, off))
}

/// The TFTP server's IPv4 address, from the cached DHCP acknowledgement.
pub fn server_ip(packet: &[u8]) -> (r: Option<[u8; 4]>)
    ensures
        r is Some <==> packet@.len() >= 0x18,
        r matches Some(ip) ==> ip@ == packet@.subrange(0x14, 0x18),
{
    if packet.len() < 0x18 {
        return None;
    }
    let ip = [packet[0x14], packet[0x15], packet[0x16], packet[0x17]];
    assert(ip@ =~= packet@.subrange(0x14, 0x18));
    Some(ip)
}

/// The file name fits the request's 128-byte field with its terminating NUL.
pub fn filename_fits(filename: &[u8]) -> (r: bool)
    ensures
        r == (filename@.len() + 1 <= 128),
{
    filename.len() < 128
}

/// What to do after a TFTP read.
#[derive(Clone, Copy, Debug, PartialEq, Eq, Structural)]
pub enum ReadStep {
    /// Keep the block and read the next one.
    More,
    /// Keep the block; it was the last one.
    Done,
    /// Give up the download.
    Fail,
}

/// Judges the block that a TFTP read returned: `received` bytes are already
/// kept, the file was announced at `capacity` bytes, and the read reported
/// `status` and `bytes_read`. A failed read, an oversized block or a file
/// longer than announced fails the download; a short block ends it.
pub fn read_step(received: usize, capacity: usize, status: u16, bytes_read: usize) -> (r: ReadStep)
    ensures
        r == (if status != 0 || bytes_read > BLOCK_SIZE || received + bytes_read > capacity {
            ReadStep::Fail
        } else if bytes_read < BLOCK_SIZE {
            ReadStep::Done
        } else {
            ReadStep::More
        }),
{
    if status != 0 || bytes_read > BLOCK_SIZE {
        return ReadStep::Fail;
    }
    if received > capacity || capacity - received < bytes_read {
        return ReadStep::Fail;
    }
    if bytes_read < BLOCK_SIZE {
        ReadStep::Done
    } else {
        ReadStep::More
    }
}

} // verus!
