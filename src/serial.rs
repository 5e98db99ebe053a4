//! The byte stream of the 8250 UART console: which bytes go to which port
//! when text is written to every serial device the BIOS reported.
use vstd::prelude::*;

verus! {

/// Line feed.
pub const LF: u8 = 10;

/// Carriage return, sent before each line feed.
pub const CR: u8 = 13;

/// The port writes for byte `b` on the first `n` devices, in device order:
/// on each present device a line feed is preceded by a carriage return.
pub open spec fn byte_writes(devices: Seq<Option<u16>>, b: u8, n: nat) -> Seq<(u16, u8)>
    decreases n,
{
    if n == 0 {
        Seq::empty()
    } else {
        byte_writes(devices, b, (n - 1) as nat) + match devices[n - 1] {
            Some(port) => if b == LF {
                seq![(port, CR), (port, b)]
            } else {
                seq![(port, b)]
            },
            None => Seq::empty(),
        }
    }
}

/// The port writes for `bytes`, byte after byte.
pub open spec fn stream_writes(devices: Seq<Option<u16>>, bytes: Seq<u8>) -> Seq<(u16, u8)>
    decreases bytes.len(),
{
    if bytes.len() == 0 {
        Seq::empty()
    } else {
        stream_writes(devices, bytes.drop_last()) + byte_writes(devices, bytes.last(), devices.len())
    }
}

/// Serial ports identified by the BIOS: the I/O port of each present COM
/// device.
pub struct Serial {
    pub devices: [Option<u16>; 4],
}

impl Serial {
    /// The port writes, as `(port, byte)` pairs in order, that send `bytes`
    /// to all present devices; the driver performs them.
    pub fn write(&self, bytes: &[u8]) -> (r: Vec<(u16, u8)>)
        ensures
            r@ == stream_writes(self.devices@, bytes@),
    {
        let ghost devs = self.devices@;
        let mut out: Vec<(u16, u8)> = Vec::new();
        let mut i: usize = 0;
        while i < bytes.len()
            invariant
                devs == self.devices@,
                devs.len() == 4,
                i <= bytes@.len(),
                out@ == stream_writes(devs, bytes@.subrange(0, i as int)),
            decreases bytes@.len() - i,
        {
            let byte = bytes[i];
            let ghost before = out@;
            let mut port: usize = 0;
            while port < 4
                invariant
                    devs == self.devices@,
                    devs.len() == 4,
                    port <= 4,
                    out@ == before + byte_writes(devs, byte, port as nat),
                decreases 4 - port,
            {
                if let Some(p) = self.devices[port] {
                    if byte == LF {
                        out.push((p, CR));
                    }
                    out.push((p, byte));
                }
                proof {
                    assert(out@ =~= before + byte_writes(devs, byte, (port + 1) as nat));
                }
                port = port + 1;
            }
            proof {
                let next = bytes@.subrange(0, i + 1);
                assert(next.drop_last() =~= bytes@.subrange(0, i as int));
                assert(next.last() == byte);
            }
            i = i + 1;
        }
        assert(bytes@.subrange(0, bytes@.len() as int) =~= bytes@);
        out
    }
}

} // verus!
