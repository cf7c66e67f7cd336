//! The camera's USB identity and its control packets.

use vstd::prelude::*;

verus! {

/// The camera's USB vendor.
pub const VID: u16 = 0x04B4;

/// The camera's USB product.
pub const PID: u16 = 0xF7F7;

/// The bulk endpoint that the video comes in on.
pub const EP_IN: u8 = 0x81;

/// The bulk endpoint that control packets go out on.
pub const EP_OUT: u8 = 0x02;

/// The exclusive or of the bytes that the checksum covers.
pub open spec fn checksum(packet: Seq<u8>) -> u8 {
    packet[2] ^ packet[3] ^ packet[4] ^ packet[5] ^ packet[6] ^ packet[7] ^ packet[8] ^ packet[9]
}

/// The number in the four value bytes, the highest first.
pub open spec fn packet_value(packet: Seq<u8>) -> int {
    packet[6] * 0x100_0000 + packet[7] * 0x1_0000 + packet[8] * 0x100 + packet[9]
}

/// Whether bytes are a control packet with the given fields.
pub open spec fn is_packet(packet: Seq<u8>, func: u8, page: u8, opt: u8, val: u32) -> bool {
    &&& packet.len() == 12
    &&& packet[0] == 0x55
    &&& packet[1] == 0xAA
    &&& packet[2] == 0x07
    &&& packet[3] == func
    &&& packet[4] == page
    &&& packet[5] == opt
    &&& packet_value(packet) == val
    &&& packet[10] == checksum(packet)
    &&& packet[11] == 0xF0
}

/// A control packet with the given fields.
pub fn packet(func: u8, page: u8, opt: u8, val: u32) -> (cmd: [u8; 12])
    ensures
        is_packet(cmd@, func, page, opt, val),
{
    let b0: u8 = (val / 0x100_0000) as u8;
    let b1: u8 = (val / 0x1_0000 % 0x100) as u8;
    let b2: u8 = (val / 0x100 % 0x100) as u8;
    let b3: u8 = (val % 0x100) as u8;
    let sum: u8 = 0x07 ^ func ^ page ^ opt ^ b0 ^ b1 ^ b2 ^ b3;
    [0x55, 0xAA, 0x07, func, page, opt, b0, b1, b2, b3, sum, 0xF0]
}

/// What the camera can be told to do.
pub enum Command {
    /// Correct the sensor's offsets against the shutter.
    QuickNuc,
    /// Open or close the shutter.
    Shutter { open: bool },
    /// Switch the gain mode with less noise on or off.
    LowNoise { on: bool },
}

impl Command {
    /// The function, page, option and value of the command's packet.
    pub open spec fn fields(&self) -> (u8, u8, u8, u32) {
        match self {
            Command::QuickNuc => (0x02, 0x01, 0x08, 1),
            Command::Shutter { open } => (0xA0, 0x02, 0x08, if *open { 1 } else { 0 }),
            Command::LowNoise { on } => (0x01, 0x00, 0x09, if *on { 1 } else { 0 }),
        }
    }

    /// The command's packet.
    pub fn encode(&self) -> (cmd: [u8; 12])
        ensures
            is_packet(
                cmd@,
                self.fields().0,
                self.fields().1,
                self.fields().2,
                self.fields().3,
            ),
    {
        match self {
            Command::QuickNuc => packet(0x02, 0x01, 0x08, 1),
            Command::Shutter { open } => packet(0xA0, 0x02, 0x08, if *open { 1 } else { 0 }),
            Command::LowNoise { on } => packet(0x01, 0x00, 0x09, if *on { 1 } else { 0 }),
        }
    }
}

/// A command, and how long to wait after it.
pub struct NucStep {
    pub command: Command,
    pub wait_ms: u64,
}

/// The extended correction: close the shutter, let it settle, correct, and open it again.
pub fn extended_nuc() -> (steps: [NucStep; 3])
    ensures
        steps[0] == (NucStep { command: Command::Shutter { open: false }, wait_ms: 500 }),
        steps[1] == (NucStep { command: Command::QuickNuc, wait_ms: 150 }),
        steps[2] == (NucStep { command: Command::Shutter { open: true }, wait_ms: 0 }),
{
    [
        NucStep { command: Command::Shutter { open: false }, wait_ms: 500 },
        NucStep { command: Command::QuickNuc, wait_ms: 150 },
        NucStep { command: Command::Shutter { open: true }, wait_ms: 0 },
    ]
}

/// A packet is determined by its fields.
pub proof fn lemma_packet_unique(a: Seq<u8>, b: Seq<u8>, func: u8, page: u8, opt: u8, val: u32)
    requires
        is_packet(a, func, page, opt, val),
        is_packet(b, func, page, opt, val),
    ensures
        a == b,
{
    let (a0, a1, a2, a3) = (a[6] as int, a[7] as int, a[8] as int, a[9] as int);
    let (b0, b1, b2, b3) = (b[6] as int, b[7] as int, b[8] as int, b[9] as int);
    assert(a0 * 0x100_0000 + a1 * 0x1_0000 + a2 * 0x100 + a3 == b0 * 0x100_0000 + b1 * 0x1_0000 + b2
        * 0x100 + b3);
    assert(a0 == b0);
    assert(a1 == b1);
    assert(a2 == b2);
    assert(a3 == b3);
    assert(checksum(a) == checksum(b));
    assert forall|i: int| 0 <= i < 12 implies a[i] == b[i] by {
        assert(i == 0 || i == 1 || i == 2 || i == 3 || i == 4 || i == 5 || i == 6 || i == 7 || i == 8
            || i == 9 || i == 10 || i == 11);
    }
    assert(a =~= b);
}

/// Packets with different fields differ.
pub proof fn lemma_packet_injective(
    packet: Seq<u8>,
    f: (u8, u8, u8, u32),
    g: (u8, u8, u8, u32),
)
    requires
        is_packet(packet, f.0, f.1, f.2, f.3),
        is_packet(packet, g.0, g.1, g.2, g.3),
    ensures
        f == g,
{
}

/// Any one changed byte under the checksum breaks it.
pub proof fn lemma_checksum_detects(packet: Seq<u8>, i: int, byte: u8)
    requires
        packet.len() == 12,
        2 <= i < 10,
        byte != packet[i],
    ensures
        checksum(packet.update(i, byte)) != checksum(packet),
{
    let (a, b, c, d) = (packet[2], packet[3], packet[4], packet[5]);
    let (e, f, g, h) = (packet[6], packet[7], packet[8], packet[9]);
    let q = packet.update(i, byte);
    let (a2, b2, c2, d2) = (q[2], q[3], q[4], q[5]);
    let (e2, f2, g2, h2) = (q[6], q[7], q[8], q[9]);
    assert(a ^ b ^ c ^ d ^ e ^ f ^ g ^ h != a2 ^ b2 ^ c2 ^ d2 ^ e2 ^ f2 ^ g2 ^ h2) by (bit_vector)
        requires
            ((a != a2) && b == b2 && c == c2 && d == d2 && e == e2 && f == f2 && g == g2 && h == h2)
                || (a == a2 && b != b2 && c == c2 && d == d2 && e == e2 && f == f2 && g == g2 && h
                == h2) || (a == a2 && b == b2 && c != c2 && d == d2 && e == e2 && f == f2 && g == g2
                && h == h2) || (a == a2 && b == b2 && c == c2 && d != d2 && e == e2 && f == f2 && g
                == g2 && h == h2) || (a == a2 && b == b2 && c == c2 && d == d2 && e != e2 && f == f2
                && g == g2 && h == h2) || (a == a2 && b == b2 && c == c2 && d == d2 && e == e2 && f
                != f2 && g == g2 && h == h2) || (a == a2 && b == b2 && c == c2 && d == d2 && e == e2
                && f == f2 && g != g2 && h == h2) || (a == a2 && b == b2 && c == c2 && d == d2 && e
                == e2 && f == f2 && g == g2 && h != h2),
    ;
}

/// The bytes of a packet: the two of its head, the code that the checksum begins with, the function,
/// the page and the option, the value with its highest byte first, the exclusive or of all of these
/// from the code on, and the end.
pub proof fn lemma_packet_bytes(packet: Seq<u8>, func: u8, page: u8, opt: u8, val: u32)
    requires
        is_packet(packet, func, page, opt, val),
    ensures
        ({
            let (b0, b1) = ((val / 0x100_0000) as u8, (val / 0x1_0000 % 0x100) as u8);
            let (b2, b3) = ((val / 0x100 % 0x100) as u8, (val % 0x100) as u8);
            let sum = 7u8 ^ func ^ page ^ opt ^ b0 ^ b1 ^ b2 ^ b3;
            packet == seq![0x55u8, 0xAA, 0x07, func, page, opt, b0, b1, b2, b3, sum, 0xF0]
        }),
{
    let (b0, b1) = ((val / 0x100_0000) as u8, (val / 0x1_0000 % 0x100) as u8);
    let (b2, b3) = ((val / 0x100 % 0x100) as u8, (val % 0x100) as u8);
    let sum = 7u8 ^ func ^ page ^ opt ^ b0 ^ b1 ^ b2 ^ b3;
    let (c0, c1, c2, c3) = (packet[6] as int, packet[7] as int, packet[8] as int, packet[9] as int);
    assert(c0 * 0x100_0000 + c1 * 0x1_0000 + c2 * 0x100 + c3 == val);
    assert(c0 == b0 && c1 == b1 && c2 == b2 && c3 == b3);
    assert(packet =~= seq![0x55u8, 0xAA, 0x07, func, page, opt, b0, b1, b2, b3, sum, 0xF0]);
}

/// The commands: the correction is function 2, page 1, option 8 with the value 1; the shutter is
/// function 160, page 2, option 8; the gain mode with less noise is function 1, page 0, option 9. The
/// value says whether it opens or goes on.
pub proof fn lemma_command_fields(open: bool)
    ensures
        Command::QuickNuc.fields() == (0x02u8, 0x01u8, 0x08u8, 1u32),
        (Command::Shutter { open }).fields() == (0xA0u8, 0x02u8, 0x08u8, open as u32),
        (Command::LowNoise { on: open }).fields() == (0x01u8, 0x00u8, 0x09u8, open as u32),
{
}

} // verus!
