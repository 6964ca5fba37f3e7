use thermaltaked::protocol::{
    brightness, command, frame_packet, frame_packets, handshake, heartbeat, FrameError, FRAME_DATA_SIZE,
    FRAME_HEADER_SIZE, FRAME_PACKET_SIZE, MAX_FRAME_PACKETS, MAX_JPEG_SIZE,
};

fn fake_jpeg(len: usize) -> Vec<u8> {
    let mut data = vec![0x11; len];
    data[..2].copy_from_slice(&[0xff, 0xd8]);
    data[len - 2..].copy_from_slice(&[0xff, 0xd9]);
    data
}

fn packets(jpeg: &[u8]) -> Vec<[u8; FRAME_PACKET_SIZE]> {
    frame_packets(jpeg).unwrap()
}

#[test]
fn commands_are_zero_padded() {
    let packet = handshake(0x85);
    assert_eq!(packet[..4], [0x85, 0x01, 0x00, 0x80]);
    assert!(packet[4..].iter().all(|&b| b == 0));
    assert_eq!(heartbeat()[..4], [0x82, 0x01, 0x00, 0x80]);
}

#[test]
fn brightness_is_clamped() {
    assert_eq!(brightness(40)[..5], [0x12, 0x01, 0x00, 0x80, 40]);
    assert_eq!(brightness(250)[4], 100);
}

#[test]
fn frame_headers() {
    let jpeg = fake_jpeg(FRAME_DATA_SIZE * 2 + 10);
    let packets = packets(&jpeg);
    assert_eq!(packets.len(), 3);
    assert_eq!(packets[0][..4], [0x08, 3, 0x00, 0x80]);
    assert_eq!(packets[1][..4], [0x08, 1, 0x00, 0x00]);
    assert_eq!(packets[2][..4], [0x08, 2, 0x00, 0x00]);
}

#[test]
fn frame_payload_roundtrip() {
    let jpeg = fake_jpeg(FRAME_DATA_SIZE + 7);
    let packets = packets(&jpeg);
    let mut payload: Vec<u8> = packets
        .iter()
        .flat_map(|p| p[FRAME_HEADER_SIZE..].iter().copied())
        .collect();
    payload.truncate(jpeg.len());
    assert_eq!(payload, jpeg);
    assert!(packets[1][FRAME_HEADER_SIZE + 7..].iter().all(|&b| b == 0));
}

#[test]
fn exact_multiple_has_no_empty_packet() {
    assert_eq!(packets(&fake_jpeg(FRAME_DATA_SIZE * 2)).len(), 2);
}

#[test]
fn rejects_bad_input() {
    assert_eq!(frame_packets(&[0u8; 64]).err(), Some(FrameError::NotJpeg));
    let huge = fake_jpeg(MAX_JPEG_SIZE + 1);
    let too_large = FrameError::TooLarge(huge.len());
    assert_eq!(frame_packets(&huge).err(), Some(too_large));
    assert_eq!(packets(&fake_jpeg(MAX_JPEG_SIZE)).len(), MAX_FRAME_PACKETS);
}

#[test]
fn handshake_commands_carry_their_opcode() {
    for opcode in [0x85u8, 0x87, 0x84, 0x81] {
        let packet = handshake(opcode);
        assert_eq!(packet.len(), 440);
        assert_eq!(packet[..4], [opcode, 0x01, 0x00, 0x80]);
        assert!(packet[4..].iter().all(|&b| b == 0));
    }
    assert!(heartbeat()[4..].iter().all(|&b| b == 0));
}

#[test]
fn brightness_edges() {
    assert_eq!(brightness(0)[4], 0);
    assert_eq!(brightness(100)[4], 100);
    assert_eq!(brightness(101)[4], 100);
    assert_eq!(brightness(255)[4], 100);
    assert!(brightness(60)[5..].iter().all(|&b| b == 0));
}

#[test]
fn markers_are_both_required() {
    // Starts right, ends wrong.
    let mut bad_end = fake_jpeg(100);
    bad_end[99] = 0x00;
    assert_eq!(frame_packets(&bad_end).err(), Some(FrameError::NotJpeg));
    // Ends right, starts wrong.
    let mut bad_start = fake_jpeg(100);
    bad_start[1] = 0x00;
    assert_eq!(frame_packets(&bad_start).err(), Some(FrameError::NotJpeg));
    // Too short to hold both markers apart: the EOI overlaps the SOI.
    assert_eq!(frame_packets(&[0xff, 0xd8]).err(), Some(FrameError::NotJpeg));
    assert_eq!(frame_packets(&[]).err(), Some(FrameError::NotJpeg));
    // The smallest stream with both markers is one report.
    let tiny = [0xff, 0xd8, 0xff, 0xd9];
    let packets = packets(&tiny);
    assert_eq!(packets.len(), 1);
    assert_eq!(packets[0][..8], [0x08, 1, 0x00, 0x80, 0xff, 0xd8, 0xff, 0xd9]);
    assert!(packets[0][8..].iter().all(|&b| b == 0));
}

#[test]
fn a_too_large_stream_is_reported_with_its_length() {
    let huge = fake_jpeg(MAX_JPEG_SIZE + 1020);
    assert_eq!(
        frame_packets(&huge).err(),
        Some(FrameError::TooLarge(MAX_JPEG_SIZE + 1020))
    );
}

#[test]
fn every_chunk_lands_in_its_report() {
    let mut jpeg = fake_jpeg(FRAME_DATA_SIZE * 3 + 500);
    for (i, byte) in jpeg.iter_mut().enumerate().skip(2).take(FRAME_DATA_SIZE * 3) {
        *byte = (i % 251) as u8;
    }
    let packets = packets(&jpeg);
    assert_eq!(packets.len(), 4);
    for (index, packet) in packets.iter().enumerate() {
        let start = index * FRAME_DATA_SIZE;
        let end = (start + FRAME_DATA_SIZE).min(jpeg.len());
        assert_eq!(&packet[4..4 + end - start], &jpeg[start..end]);
        assert_eq!(*packet, frame_packet(&jpeg, index));
    }
    assert_eq!(packets[3][4 + 500..], [0u8; FRAME_DATA_SIZE - 500]);
}

#[test]
fn the_largest_stream_numbers_every_report() {
    let packets = packets(&fake_jpeg(MAX_JPEG_SIZE));
    assert_eq!(packets[0][1], 255);
    for (index, packet) in packets.iter().enumerate().skip(1) {
        assert_eq!(packet[1] as usize, index);
        assert_eq!(packet[3], 0);
    }
}

#[test]
fn any_short_prefix_is_zero_padded() {
    let packet = command(&[1, 2, 3]);
    assert_eq!(packet.len(), 440);
    assert_eq!(packet[..3], [1, 2, 3]);
    assert!(packet[3..].iter().all(|&b| b == 0));
    assert!(command(&[]).iter().all(|&b| b == 0));
    assert_eq!(command(&[7; 440]), [7; 440]);
}
