use nlx_replay::errors::CscError;
use nlx_replay::nlx_udp::NlxUdpPacket;

fn sample_packet() -> NlxUdpPacket {
    NlxUdpPacket {
        stx: 2048,
        packet_id: 7,
        packet_size: 12,
        timestamp_high: 2,
        timestamp_low: 3,
        status: 5,
        parallel_input_port: 9,
        extras: vec![1, 2, 3, 4, 5, 6, 7, 8, 9, 10],
        data: vec![100, -200],
        crc: 77,
    }
}

#[test]
fn packet_encode_then_decode_returns_same_packet() {
    let packet = sample_packet();
    let bytes = packet.serialize().unwrap();
    assert_eq!(bytes.len(), 72 + 4 * 2);
    let decoded = NlxUdpPacket::deserialize(&bytes).unwrap();
    assert_eq!(decoded, packet);
}

#[test]
fn packet_decode_then_encode_returns_input_bytes() {
    let bytes = sample_packet().serialize().unwrap();
    let decoded = NlxUdpPacket::deserialize(&bytes).unwrap();
    assert_eq!(decoded.serialize().unwrap(), bytes);
}

#[test]
fn packet_decode_ignores_trailing_bytes() {
    let mut bytes = sample_packet().serialize().unwrap();
    bytes.extend_from_slice(&[0xAA; 16]);
    let decoded = NlxUdpPacket::deserialize(&bytes).unwrap();
    assert_eq!(decoded, sample_packet());
}

#[test]
fn packet_decode_trusts_declared_count_for_body_length() {
    let mut packet = sample_packet();
    packet.data = vec![1, 2, 3, 4, 5];
    packet.packet_size = 15;
    let bytes = packet.serialize().unwrap();
    let decoded = NlxUdpPacket::deserialize(&bytes).unwrap();
    assert_eq!(decoded.data, vec![1, 2, 3, 4, 5]);
}

#[test]
fn packet_decode_rejects_small_declared_count() {
    let mut packet = sample_packet();
    packet.data = Vec::new();
    packet.packet_size = 9;
    let bytes = packet.serialize().unwrap();
    assert_eq!(
        NlxUdpPacket::deserialize(&bytes).unwrap_err(),
        CscError::BadPacketSize
    );
}

#[test]
fn packet_decode_rejects_exhausted_stream() {
    assert_eq!(
        NlxUdpPacket::deserialize(&[0u8; 67]).unwrap_err(),
        CscError::ShortPacket
    );
    let bytes = sample_packet().serialize().unwrap();
    assert_eq!(
        NlxUdpPacket::deserialize(&bytes[..bytes.len() - 1]).unwrap_err(),
        CscError::ShortPacket
    );
}

#[test]
fn checksum_matches_hand_computed_xor() {
    let packet = sample_packet();
    let mut expected: u32 = 0;
    expected ^= 2048u32;
    expected ^= 7u32;
    expected ^= 12u32;
    expected ^= 2u32;
    expected ^= 3u32;
    expected ^= 5u32;
    expected ^= 9u32;
    for e in [1i32, 2, 3, 4, 5, 6, 7, 8, 9, 10] {
        expected ^= e as u32;
    }
    expected ^= 100i32 as u32;
    expected ^= -200i32 as u32;
    expected ^= 77u32;
    assert_eq!(packet.checksum(), expected);
}

#[test]
fn checksum_of_all_zero_fields_is_zero() {
    let packet = NlxUdpPacket {
        stx: 0,
        packet_id: 0,
        packet_size: 0,
        timestamp_high: 0,
        timestamp_low: 0,
        status: 0,
        parallel_input_port: 0,
        extras: vec![0; 10],
        data: Vec::new(),
        crc: 0,
    };
    assert_eq!(packet.checksum(), 0);
}
