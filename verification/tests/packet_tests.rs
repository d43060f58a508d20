//! Wire-codec tests: encoding layout, decode errors, and the round trip.

use utp::packet::{Packet, PacketType};
use utp::SocketError;

#[test]
fn test_packet_round_trip() {
    let mut packet = Packet::new();
    packet.set_type(PacketType::Data);
    packet.set_connection_id(0x1234);
    packet.set_timestamp_microseconds(0xDEAD_BEEF);
    packet.set_timestamp_difference_microseconds(77);
    packet.set_wnd_size(1500);
    packet.set_seq_nr(500);
    packet.set_ack_nr(499);
    packet.payload = vec![1, 2, 3, 4, 5];

    let bytes = packet.to_bytes();
    assert_eq!(bytes.len(), 25);

    let decoded = Packet::from_bytes(&bytes).unwrap();
    assert_eq!(decoded.get_type(), PacketType::Data);
    assert_eq!(decoded.connection_id(), 0x1234);
    assert_eq!(decoded.timestamp_microseconds(), 0xDEAD_BEEF);
    assert_eq!(decoded.timestamp_difference_microseconds(), 77);
    assert_eq!(decoded.wnd_size(), 1500);
    assert_eq!(decoded.seq_nr(), 500);
    assert_eq!(decoded.ack_nr(), 499);
    assert_eq!(decoded.payload, vec![1, 2, 3, 4, 5]);
}

#[test]
fn test_packet_round_trip_with_sack() {
    let mut packet = Packet::new();
    packet.set_type(PacketType::State);
    packet.set_connection_id(42);
    packet.set_seq_nr(33);
    packet.set_ack_nr(32);
    packet.set_sack(vec![0b0000_1100, 0, 0, 0]);

    let bytes = packet.to_bytes();
    // 20-byte header, 2-byte extension prefix, 4-byte bitmap.
    assert_eq!(bytes.len(), 26);
    assert_eq!(bytes[1], 1, "first extension type in the header");
    assert_eq!(bytes[20], 0, "no extension follows");
    assert_eq!(bytes[21], 4, "bitmap length");

    let decoded = Packet::from_bytes(&bytes).unwrap();
    assert_eq!(decoded.extensions.len(), 1);
    let ext = &decoded.extensions[0];
    assert_eq!(ext.len(), 4);
    assert!(!ext.bit(0));
    assert!(!ext.bit(1));
    assert!(ext.bit(2));
    assert!(ext.bit(3));
    assert!(!ext.bit(4));
    assert_eq!(ext.count_ones(), 2);
}

#[test]
fn test_header_layout_big_endian() {
    let mut packet = Packet::new();
    packet.set_type(PacketType::Syn);
    packet.set_connection_id(0x0102);
    packet.set_seq_nr(0x0304);
    packet.set_ack_nr(0x0506);
    packet.set_wnd_size(0x0708090A);
    let bytes = packet.to_bytes();
    assert_eq!(bytes[0], 0x41, "Syn nibble and version nibble");
    assert_eq!(&bytes[2..4], &[0x01, 0x02]);
    assert_eq!(&bytes[12..16], &[0x07, 0x08, 0x09, 0x0A]);
    assert_eq!(&bytes[16..18], &[0x03, 0x04]);
    assert_eq!(&bytes[18..20], &[0x05, 0x06]);
}

#[test]
fn test_decode_rejects_short_buffer() {
    assert_eq!(Packet::from_bytes(&[0u8; 19]).unwrap_err(), SocketError::InvalidPacket);
}

#[test]
fn test_decode_rejects_wrong_version() {
    let mut bytes = Packet::new().to_bytes();
    bytes[0] = 0x02; // version 2
    assert_eq!(Packet::from_bytes(&bytes).unwrap_err(), SocketError::InvalidPacket);
}

#[test]
fn test_decode_rejects_unknown_type() {
    let mut bytes = Packet::new().to_bytes();
    bytes[0] = 0x51; // type code 5
    assert_eq!(Packet::from_bytes(&bytes).unwrap_err(), SocketError::InvalidPacket);
}

#[test]
fn test_decode_rejects_overrunning_extension() {
    let mut packet = Packet::new();
    packet.set_sack(vec![0, 0, 0, 0]);
    let mut bytes = packet.to_bytes();
    bytes[21] = 200; // claims 200 payload bytes that are not there
    assert_eq!(Packet::from_bytes(&bytes).unwrap_err(), SocketError::InvalidPacket);
}

#[test]
fn test_decode_rejects_unaligned_sack_length() {
    let mut packet = Packet::new();
    packet.set_sack(vec![0, 0, 0, 0]);
    packet.payload = vec![9, 9, 9];
    let mut bytes = packet.to_bytes();
    bytes[21] = 3; // a selective ACK whose length is not a multiple of four
    assert_eq!(Packet::from_bytes(&bytes).unwrap_err(), SocketError::InvalidPacket);
}

#[test]
fn test_error_messages() {
    assert_eq!(SocketError::ConnectionClosed.message(), "The socket is closed");
    assert_eq!(SocketError::InvalidPacket.message(), "Error parsing packet");
}
