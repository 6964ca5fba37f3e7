//! Wire format of the Thermaltake 3.9" bar LCD (264a:233d).
//!
//! The panel exposes two HID interfaces: interface 0 takes 440-byte command
//! reports, interface 1 takes 1024-byte frame reports carrying a chunked JPEG.

use vstd::prelude::*;

verus! {

pub const VENDOR_ID: u16 = 0x264a;
pub const PRODUCT_ID: u16 = 0x233d;

pub const WIDTH: u32 = 480;
pub const HEIGHT: u32 = 128;

pub const COMMAND_INTERFACE: u8 = 0;
pub const FRAME_INTERFACE: u8 = 1;

pub const COMMAND_PACKET_SIZE: usize = 440;
pub const FRAME_PACKET_SIZE: usize = 1024;
pub const FRAME_HEADER_SIZE: usize = 4;
pub const FRAME_DATA_SIZE: usize = 1020;
/// The packet count travels in a single byte.
pub const MAX_FRAME_PACKETS: usize = 255;
pub const MAX_JPEG_SIZE: usize = 260100;

/// Opcodes sent, in order, to wake the panel up. Each one is acknowledged.
pub const HANDSHAKE_OPCODES: [u8; 6] = [0x85, 0x87, 0x85, 0x87, 0x84, 0x81];
pub const HEARTBEAT_OPCODE: u8 = 0x82;
pub const BRIGHTNESS_OPCODE: u8 = 0x12;
pub const FRAME_OPCODE: u8 = 0x08;

/// `prefix`, then zeros up to `len` bytes.
pub open spec fn zero_padded(prefix: Seq<u8>, len: nat) -> Seq<u8> {
    prefix + Seq::new((len - prefix.len()) as nat, |i: int| 0u8)
}

/// The four bytes every command starts with.
pub open spec fn command_header(opcode: u8) -> Seq<u8> {
    seq![opcode, 0x01u8, 0x00u8, 0x80u8]
}

/// A command report: `prefix`, then zeros up to the report size.
pub fn command(prefix: &[u8]) -> (packet: [u8; 440])
    requires
        prefix@.len() <= COMMAND_PACKET_SIZE,
    ensures
        packet@ == zero_padded(prefix@, COMMAND_PACKET_SIZE as nat),
{
    let mut packet = [0u8; 440];
    let mut i: usize = 0;
    while i < prefix.len()
        invariant
            prefix@.len() <= COMMAND_PACKET_SIZE,
            i <= prefix@.len(),
            packet@.len() == COMMAND_PACKET_SIZE,
            forall|j: int| 0 <= j < i ==> packet@[j] == prefix@[j],
            forall|j: int| i <= j < COMMAND_PACKET_SIZE ==> packet@[j] == 0u8,
        decreases prefix@.len() - i,
    {
        packet[i] = prefix[i];
        i = i + 1;
    }
    assert(packet@ =~= zero_padded(prefix@, COMMAND_PACKET_SIZE as nat));
    packet
}

/// One step of the wake-up handshake.
pub fn handshake(opcode: u8) -> (packet: [u8; 440])
    ensures
        packet@ == zero_padded(command_header(opcode), COMMAND_PACKET_SIZE as nat),
{
    command(&[opcode, 0x01, 0x00, 0x80])
}

/// The heartbeat sent every two seconds to keep the panel awake.
pub fn heartbeat() -> (packet: [u8; 440])
    ensures
        packet@ == zero_padded(command_header(HEARTBEAT_OPCODE), COMMAND_PACKET_SIZE as nat),
{
    command(&[HEARTBEAT_OPCODE, 0x01, 0x00, 0x80])
}

/// The backlight level carried by a brightness command: `percent`, clamped to 0..=100.
pub open spec fn clamped_percent(percent: u8) -> u8 {
    if percent <= 100 {
        percent
    } else {
        100
    }
}

/// `percent` is clamped to 0..=100.
pub fn brightness(percent: u8) -> (packet: [u8; 440])
    ensures
        packet@ == zero_padded(
            command_header(BRIGHTNESS_OPCODE).push(clamped_percent(percent)),
            COMMAND_PACKET_SIZE as nat,
        ),
{
    let level = if percent <= 100 {
        percent
    } else {
        100
    };
    let packet = command(&[BRIGHTNESS_OPCODE, 0x01, 0x00, 0x80, level]);
    assert(seq![BRIGHTNESS_OPCODE, 0x01u8, 0x00u8, 0x80u8, level] =~= command_header(
        BRIGHTNESS_OPCODE,
    ).push(clamped_percent(percent)));
    packet
}

/// Why a JPEG cannot be sent as a frame.
#[derive(Debug, PartialEq, Eq, Structural)]
pub enum FrameError {
    /// The frame is not a complete JPEG stream.
    NotJpeg,
    /// The JPEG is larger than the panel accepts; carries its length in bytes.
    TooLarge(usize),
}

/// Starts with the SOI marker and ends with the EOI marker.
pub open spec fn is_jpeg(data: Seq<u8>) -> bool {
    &&& data.len() >= 2
    &&& data[0] == 0xffu8
    &&& data[1] == 0xd8u8
    &&& data[data.len() - 2] == 0xffu8
    &&& data[data.len() - 1] == 0xd9u8
}

/// A JPEG the panel takes as one frame.
pub open spec fn is_sendable(jpeg: Seq<u8>) -> bool {
    is_jpeg(jpeg) && jpeg.len() <= MAX_JPEG_SIZE
}

/// Number of frame reports a JPEG of `len` bytes needs: one per started chunk.
pub open spec fn packet_count(len: nat) -> nat {
    ((len + FRAME_DATA_SIZE - 1) / FRAME_DATA_SIZE as int) as nat
}

/// The bytes of `jpeg` carried by report `index`.
pub open spec fn chunk(jpeg: Seq<u8>, index: int) -> Seq<u8> {
    let start = index * FRAME_DATA_SIZE;
    let end = if (index + 1) * FRAME_DATA_SIZE <= jpeg.len() {
        (index + 1) * FRAME_DATA_SIZE
    } else {
        jpeg.len() as int
    };
    jpeg.subrange(start, end)
}

/// The first header carries the total packet count and the 0x80 start flag,
/// the following ones their index.
pub open spec fn frame_header(count: nat, index: int) -> Seq<u8> {
    if index == 0 {
        seq![FRAME_OPCODE, count as u8, 0x00u8, 0x80u8]
    } else {
        seq![FRAME_OPCODE, index as u8, 0x00u8, 0x00u8]
    }
}

/// Report `index` of `jpeg`: its header, its chunk, then zeros.
pub open spec fn frame_report(jpeg: Seq<u8>, index: int) -> Seq<u8> {
    zero_padded(
        frame_header(packet_count(jpeg.len()), index) + chunk(jpeg, index),
        FRAME_PACKET_SIZE as nat,
    )
}

/// The payload of a report: everything after its header.
pub open spec fn payload(report: Seq<u8>) -> Seq<u8> {
    report.subrange(FRAME_HEADER_SIZE as int, report.len() as int)
}

/// Every report payload of `jpeg`, in order, end to end.
pub open spec fn reassembled(jpeg: Seq<u8>) -> Seq<u8> {
    Seq::new(packet_count(jpeg.len()), |i: int| payload(frame_report(jpeg, i))).flatten()
}

proof fn lemma_count_bounds(len: nat)
    requires
        0 < len,
    ensures
        (packet_count(len) - 1) * FRAME_DATA_SIZE < len,
        len <= packet_count(len) * FRAME_DATA_SIZE,
        packet_count(len) >= 1,
{
}

/// Builds frame report `index` of `jpeg`.
pub fn frame_packet(jpeg: &[u8], index: usize) -> (packet: [u8; 1024])
    requires
        is_sendable(jpeg@),
        index < packet_count(jpeg@.len()),
    ensures
        packet@ == frame_report(jpeg@, index as int),
{
    proof {
        lemma_count_bounds(jpeg@.len());
    }
    let count = (jpeg.len() + FRAME_DATA_SIZE - 1) / FRAME_DATA_SIZE;
    let start = index * FRAME_DATA_SIZE;
    let end = if (index + 1) * FRAME_DATA_SIZE <= jpeg.len() {
        (index + 1) * FRAME_DATA_SIZE
    } else {
        jpeg.len()
    };
    let mut packet = [0u8; 1024];
    packet[0] = FRAME_OPCODE;
    if index == 0 {
        packet[1] = count as u8;
        packet[3] = 0x80;
    } else {
        packet[1] = index as u8;
    }
    let ghost header = frame_header(packet_count(jpeg@.len()), index as int);
    let mut i: usize = start;
    while i < end
        invariant
            start == index * FRAME_DATA_SIZE,
            start <= end <= jpeg@.len(),
            end - start <= FRAME_DATA_SIZE,
            start <= i <= end,
            packet@.len() == FRAME_PACKET_SIZE,
            header.len() == 4,
            forall|j: int| 0 <= j < 4 ==> packet@[j] == header[j],
            forall|j: int| start <= j < i ==> packet@[FRAME_HEADER_SIZE + j - start] == jpeg@[j],
            forall|j: int|
                FRAME_HEADER_SIZE + i - start <= j < FRAME_PACKET_SIZE ==> packet@[j] == 0u8,
        decreases end - i,
    {
        packet[i - start + FRAME_HEADER_SIZE] = jpeg[i];
        i = i + 1;
    }
    assert(packet@ =~= frame_report(jpeg@, index as int));
    packet
}

/// Splits a JPEG into frame reports. The first header carries the total
/// packet count and the 0x80 start flag, the following ones their index.
///
/// Fails when `jpeg` is not a complete JPEG stream, or is too large to
/// address with a one-byte packet count.
pub fn frame_packets(jpeg: &[u8]) -> (packets: Result<Vec<[u8; 1024]>, FrameError>)
    ensures
        !is_jpeg(jpeg@) <==> packets == Err::<Vec<[u8; 1024]>, FrameError>(FrameError::NotJpeg),
        is_jpeg(jpeg@) && jpeg@.len() > MAX_JPEG_SIZE <==> packets == Err::<
            Vec<[u8; 1024]>,
            FrameError,
        >(FrameError::TooLarge(jpeg@.len() as usize)),
        packets is Ok <==> is_sendable(jpeg@),
        packets matches Ok(packets) ==> {
            &&& packets@.len() == packet_count(jpeg@.len())
            &&& packets@.len() <= MAX_FRAME_PACKETS
            &&& forall|i: int| 0 <= i < packets@.len() ==> #[trigger] packets@[i]@ == frame_report(jpeg@, i)
        },
{
    let len = jpeg.len();
    if len < 2 || jpeg[0] != 0xff || jpeg[1] != 0xd8 || jpeg[len - 2] != 0xff || jpeg[len - 1] != 0xd9 {
        return Err(FrameError::NotJpeg);
    }
    if len > MAX_JPEG_SIZE {
        return Err(FrameError::TooLarge(len));
    }
    // At most MAX_FRAME_PACKETS, so the count and the indexes fit in a byte.
    let count = (len + FRAME_DATA_SIZE - 1) / FRAME_DATA_SIZE;
    let mut packets: Vec<[u8; 1024]> = Vec::new();
    let mut index: usize = 0;
    while index < count
        invariant
            is_sendable(jpeg@),
            len == jpeg@.len(),
            count == packet_count(jpeg@.len()),
            index <= count,
            packets@.len() == index,
            forall|i: int| 0 <= i < index ==> #[trigger] packets@[i]@ == frame_report(jpeg@, i),
        decreases count - index,
    {
        packets.push(frame_packet(jpeg, index));
        index = index + 1;
    }
    Ok(packets)
}

/// Reports carrying whole chunks end to end: reading across them is reading
/// chunk `k / FRAME_DATA_SIZE` at offset `k % FRAME_DATA_SIZE`.
proof fn lemma_flatten_chunks(parts: Seq<Seq<u8>>)
    requires
        forall|i: int| 0 <= i < parts.len() ==> (#[trigger] parts[i]).len() == FRAME_DATA_SIZE,
    ensures
        parts.flatten().len() == parts.len() * FRAME_DATA_SIZE,
        forall|k: int|
            0 <= k < parts.len() * FRAME_DATA_SIZE ==> #[trigger] parts.flatten()[k]
                == parts[k / FRAME_DATA_SIZE as int][k % FRAME_DATA_SIZE as int],
    decreases parts.len(),
{
    if parts.len() > 0 {
        let rest = parts.drop_first();
        assert forall|i: int| 0 <= i < rest.len() implies (#[trigger] rest[i]).len()
            == FRAME_DATA_SIZE by {
            assert(rest[i] == parts[i + 1]);
        }
        lemma_flatten_chunks(rest);
        assert(parts.flatten() == parts[0] + rest.flatten());
        assert forall|k: int| 0 <= k < parts.len() * FRAME_DATA_SIZE implies #[trigger] parts.flatten()[k]
            == parts[k / FRAME_DATA_SIZE as int][k % FRAME_DATA_SIZE as int] by {
            if k >= FRAME_DATA_SIZE {
                let r = k - FRAME_DATA_SIZE;
                assert(r / 1020 + 1 == k / 1020 && r % 1020 == k % 1020) by (nonlinear_arith)
                    requires
                        r == k - 1020,
                        r >= 0,
                ;
                assert(rest[r / FRAME_DATA_SIZE as int] == parts[k / FRAME_DATA_SIZE as int]);
            }
        }
    }
}

/// What the frame reports carry, put back end to end and cut to the JPEG's
/// length, is the JPEG; what follows it is zeros.
pub proof fn lemma_frame_reassembles(jpeg: Seq<u8>)
    requires
        is_sendable(jpeg),
    ensures
        reassembled(jpeg).len() == packet_count(jpeg.len()) * FRAME_DATA_SIZE,
        reassembled(jpeg).take(jpeg.len() as int) == jpeg,
        forall|k: int|
            jpeg.len() <= k < reassembled(jpeg).len() ==> #[trigger] reassembled(jpeg)[k] == 0u8,
{
    let count = packet_count(jpeg.len());
    lemma_count_bounds(jpeg.len());
    let parts = Seq::new(count, |i: int| payload(frame_report(jpeg, i)));
    assert forall|i: int| 0 <= i < parts.len() implies (#[trigger] parts[i]).len()
        == FRAME_DATA_SIZE by {
        assert(chunk(jpeg, i).len() <= FRAME_DATA_SIZE);
    }
    lemma_flatten_chunks(parts);
    assert forall|k: int| 0 <= k < parts.len() * FRAME_DATA_SIZE implies #[trigger] parts.flatten()[k]
        == if k < jpeg.len() {
        jpeg[k]
    } else {
        0u8
    } by {
        let i = k / FRAME_DATA_SIZE as int;
        let o = k % FRAME_DATA_SIZE as int;
        assert(k == i * 1020 + o && 0 <= o < 1020) by (nonlinear_arith)
            requires
                i == k / 1020,
                o == k % 1020,
                k >= 0,
        ;
        assert(0 <= i < count) by (nonlinear_arith)
            requires
                k == i * 1020 + o,
                0 <= o < 1020,
                0 <= k < count * 1020,
        ;
        let c = chunk(jpeg, i);
        assert(parts[i] == payload(frame_report(jpeg, i)));
        assert(payload(frame_report(jpeg, i))[o] == frame_report(jpeg, i)[o + 4]);
        if o < c.len() {
            assert(c[o] == jpeg[k]);
        }
    }
    assert(reassembled(jpeg) == parts.flatten());
    assert(reassembled(jpeg).take(jpeg.len() as int) =~= jpeg);
}

/// Every frame report carries at least one byte of the JPEG, so a JPEG whose
/// length is a multiple of the chunk size gets no empty trailing report; and
/// every report but the last carries a full chunk.
pub proof fn lemma_no_empty_report(jpeg: Seq<u8>)
    requires
        is_sendable(jpeg),
    ensures
        forall|i: int|
            0 <= i < packet_count(jpeg.len()) ==> #[trigger] chunk(jpeg, i).len() > 0,
        forall|i: int|
            0 <= i < packet_count(jpeg.len()) - 1 ==> #[trigger] chunk(jpeg, i).len()
                == FRAME_DATA_SIZE,
{
    lemma_count_bounds(jpeg.len());
}

/// The count in the first header and the indexes in the others fit in their
/// byte: they are carried exactly, never wrapped.
pub proof fn lemma_headers_are_exact(jpeg: Seq<u8>)
    requires
        is_sendable(jpeg),
    ensures
        packet_count(jpeg.len()) <= MAX_FRAME_PACKETS,
        forall|i: int|
            0 <= i < packet_count(jpeg.len()) ==> #[trigger] frame_report(jpeg, i)[1] as int
                == if i == 0 {
                packet_count(jpeg.len()) as int
            } else {
                i
            },
        forall|i: int|
            0 <= i < packet_count(jpeg.len()) ==> #[trigger] frame_report(jpeg, i)[3] == if i
                == 0 {
                0x80u8
            } else {
                0u8
            },
{
    lemma_count_bounds(jpeg.len());
}

} // verus!
