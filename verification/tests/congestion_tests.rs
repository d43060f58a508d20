//! Unit tests of the congestion controller's formulas, the outgoing queue,
//! the release policy's partial reads, errors, and the readiness-set helper.

use utp::packet::{Packet, PacketType};
use utp::socket::{SocketState, UtpSocket};
use utp::SocketError;

#[test]
fn test_cwnd_update_exact() {
    let mut socket = UtpSocket::new();
    assert_eq!(socket.cwnd, 2800);
    socket.curr_window = 2800;
    // Zero queueing delay: the window grows by bytes * MSS / cwnd.
    socket.update_congestion_window(0, 1400);
    assert_eq!(socket.cwnd, 3500);
}

#[test]
fn test_cwnd_update_caps_at_flightsize_plus_one_segment() {
    let mut socket = UtpSocket::new();
    socket.curr_window = 1400;
    socket.cwnd = 2800;
    socket.update_congestion_window(0, 1400 * 4);
    // The raw increase (2800) is capped at flightsize + MSS = 2800.
    assert_eq!(socket.cwnd, 2800);
}

#[test]
fn test_cwnd_update_floors_at_two_segments() {
    let mut socket = UtpSocket::new();
    socket.curr_window = 28000;
    socket.cwnd = 2800;
    // A queueing delay far beyond the target shrinks the window, floored.
    socket.update_congestion_window(1_000_000, 2800);
    assert_eq!(socket.cwnd, 2800);
}

#[test]
fn test_congestion_timeout_exact() {
    let mut socket = UtpSocket::new();
    assert_eq!(socket.rtt, 0);
    assert_eq!(socket.rtt_variance, 0);
    socket.update_congestion_timeout(100);
    // delta = -100; variance += (100 - 0) / 4; rtt += (100 - 0) / 8.
    assert_eq!(socket.rtt_variance, 25);
    assert_eq!(socket.rtt, 12);
    // rtt + 4 * variance = 112 is below the 500 ms floor.
    assert_eq!(socket.congestion_timeout, 500);
}

#[test]
fn test_filtered_current_delay_ewma() {
    let mut socket = UtpSocket::new();
    assert_eq!(socket.filtered_current_delay(), 0);
    socket.update_current_delay(1000, 50);
    assert_eq!(socket.filtered_current_delay(), 333);
    socket.update_current_delay(2000, 50);
    // (333 * 2000 + 667 * 333) / 1000 = 888.
    assert_eq!(socket.filtered_current_delay(), 888);
    assert_eq!(socket.queuing_delay(), 888);
}

#[test]
fn test_current_delay_eviction() {
    let mut socket = UtpSocket::new();
    socket.rtt = 1; // one millisecond: evict samples older than 1000 us
    socket.update_current_delay(10, 0);
    socket.update_current_delay(20, 1000);
    assert_eq!(socket.current_delays.len(), 2);
    socket.update_current_delay(30, 1500);
    // The sample received at 0 is older than one RTT; the one at 1000 is not.
    assert_eq!(socket.current_delays.len(), 2);
    assert_eq!(socket.current_delays[0].difference, 20);
    assert_eq!(socket.current_delays[1].difference, 30);
}

#[test]
fn test_on_timeout_backoff() {
    let mut socket = UtpSocket::new();
    assert_eq!(socket.congestion_timeout, 1000);
    assert!(socket.on_timeout().is_none());
    assert_eq!(socket.congestion_timeout, 2000);
    assert_eq!(socket.cwnd, 1400);
    let mut p = Packet::new();
    p.set_seq_nr(9);
    socket.record_transmit(p);
    let oldest = socket.on_timeout().unwrap();
    assert_eq!(oldest.seq_nr(), 9);
    assert_eq!(socket.congestion_timeout, 4000);
}

#[test]
fn test_on_timeout_caps_at_one_minute() {
    let mut socket = UtpSocket::new();
    socket.congestion_timeout = 50_000;
    let _ = socket.on_timeout();
    assert_eq!(socket.congestion_timeout, 60_000);
}

#[test]
fn test_queue_outgoing_chunks_and_sequence_numbers() {
    let mut socket = UtpSocket::new();
    socket.state = SocketState::Connected;
    let start = socket.seq_nr;
    let data: Vec<u8> = (0..3000).map(|i| (i % 97) as u8).collect();
    assert_eq!(socket.queue_outgoing(&data).unwrap(), 3000);
    assert_eq!(socket.unsent_queue.len(), 3);
    assert_eq!(socket.unsent_queue[0].payload.len(), 1380);
    assert_eq!(socket.unsent_queue[1].payload.len(), 1380);
    assert_eq!(socket.unsent_queue[2].payload.len(), 240);
    let mut rebuilt: Vec<u8> = Vec::new();
    for (i, p) in socket.unsent_queue.iter().enumerate() {
        assert_eq!(p.get_type(), PacketType::Data);
        assert_eq!(p.seq_nr(), start.wrapping_add(i as u16));
        assert_eq!(p.connection_id(), socket.sender_connection_id);
        rebuilt.extend_from_slice(&p.payload);
    }
    assert_eq!(rebuilt, data);
    assert_eq!(socket.seq_nr, start.wrapping_add(3));
}

#[test]
fn test_queue_outgoing_empty_write() {
    let mut socket = UtpSocket::new();
    socket.state = SocketState::Connected;
    let seq = socket.seq_nr;
    assert_eq!(socket.queue_outgoing(&[]).unwrap(), 0);
    assert!(socket.unsent_queue.is_empty());
    assert_eq!(socket.seq_nr, seq);
}

#[test]
fn test_queue_outgoing_exact_chunk_boundary() {
    let mut socket = UtpSocket::new();
    socket.state = SocketState::Connected;
    let data = vec![5u8; 1380];
    assert_eq!(socket.queue_outgoing(&data).unwrap(), 1380);
    assert_eq!(socket.unsent_queue.len(), 1);
    assert_eq!(socket.unsent_queue[0].payload.len(), 1380);
}

#[test]
fn test_queue_outgoing_on_closed_socket() {
    let mut socket = UtpSocket::new();
    socket.state = SocketState::Closed;
    assert_eq!(socket.queue_outgoing(&[1, 2, 3]).unwrap_err(), SocketError::ConnectionClosed);
    assert!(socket.unsent_queue.is_empty());
}

#[test]
fn test_window_accounting() {
    let mut socket = UtpSocket::new();
    let mut p1 = Packet::new();
    p1.set_seq_nr(5);
    p1.payload = vec![0; 100];
    let mut p2 = Packet::new();
    p2.set_seq_nr(6);
    p2.payload = vec![0; 200];
    socket.record_transmit(p1);
    socket.record_transmit(p2);
    assert_eq!(socket.curr_window, 120 + 220);
    socket.last_acked = 5;
    socket.advance_send_window();
    assert_eq!(socket.curr_window, 220);
    assert_eq!(socket.send_window.len(), 1);
    // An acknowledgement for an unknown sequence number changes nothing.
    socket.last_acked = 40;
    socket.advance_send_window();
    assert_eq!(socket.curr_window, 220);
    socket.last_acked = 6;
    socket.advance_send_window();
    assert_eq!(socket.curr_window, 0);
    assert!(socket.send_window.is_empty());
}

#[test]
fn test_flush_partial_read_keeps_pending_suffix() {
    let mut socket = UtpSocket::new();
    socket.ack_nr = 0;
    let mut p = Packet::new();
    p.set_type(PacketType::Data);
    p.set_seq_nr(1);
    p.payload = vec![10, 20, 30, 40, 50];
    socket.insert_into_buffer(p);

    let mut small = vec![0u8; 2];
    assert_eq!(socket.flush_incoming_buffer(&mut small), 2);
    assert_eq!(small, vec![10, 20]);
    assert_eq!(socket.pending_data, vec![30, 40, 50]);
    // The partially read packet is not yet acknowledged.
    assert_eq!(socket.ack_nr, 0);

    let mut rest = vec![0u8; 10];
    assert_eq!(socket.flush_incoming_buffer(&mut rest), 3);
    assert_eq!(&rest[..3], &[30, 40, 50]);
    assert!(socket.pending_data.is_empty());
    assert!(socket.incoming_buffer.is_empty());
    assert_eq!(socket.ack_nr, 1);
    assert_eq!(socket.last_dropped, 1);
    // Nothing further to read.
    assert_eq!(socket.flush_incoming_buffer(&mut rest), 0);
}

#[test]
fn test_out_of_order_head_is_not_released() {
    let mut socket = UtpSocket::new();
    socket.ack_nr = 0;
    let mut p = Packet::new();
    p.set_type(PacketType::Data);
    p.set_seq_nr(3); // a gap: packets 1 and 2 are missing
    p.payload = vec![7];
    socket.insert_into_buffer(p);
    let mut buf = vec![0u8; 10];
    assert_eq!(socket.flush_incoming_buffer(&mut buf), 0);
    assert_eq!(socket.incoming_buffer.len(), 1);
}

#[test]
fn test_invalid_reply_during_handshake() {
    let mut socket = UtpSocket::new();
    let _syn = socket.connect_syn();
    assert_eq!(socket.state, SocketState::SynSent);
    let mut p = Packet::new();
    p.set_type(PacketType::Data);
    let err = socket.handle_packet(&p, 0).unwrap_err();
    assert_eq!(err, SocketError::InvalidReply);
    assert_eq!(socket.state, SocketState::SynSent);
}

#[test]
fn test_reset_is_terminal() {
    let mut socket = UtpSocket::new();
    socket.state = SocketState::Connected;
    let mut p = Packet::new();
    p.set_type(PacketType::Reset);
    p.set_connection_id(socket.sender_connection_id);
    let err = socket.handle_packet(&p, 0).unwrap_err();
    assert_eq!(err, SocketError::ConnectionReset);
    assert_eq!(socket.state, SocketState::ResetReceived);
}

#[test]
fn test_unexpected_packet_for_state() {
    let mut socket = UtpSocket::new();
    // A Data packet in state New, with a matching connection id.
    let mut p = Packet::new();
    p.set_type(PacketType::Data);
    p.set_connection_id(socket.sender_connection_id);
    let err = socket.handle_packet(&p, 0).unwrap_err();
    assert_eq!(err, SocketError::Other);
    assert_eq!(socket.state, SocketState::New);
}

#[test]
fn test_close_request_is_idle_before_connecting() {
    let mut socket = UtpSocket::new();
    assert!(socket.close_request().is_none());
    assert_eq!(socket.state, SocketState::New);
}

#[test]
fn test_max_inflight_floor() {
    let mut socket = UtpSocket::new();
    socket.cwnd = 100_000;
    socket.remote_wnd_size = 500;
    // The advertised window is tiny, but the floor is two segments.
    assert_eq!(socket.max_inflight(), 2800);
    assert!(socket.can_transmit());
    socket.curr_window = 2800;
    assert!(!socket.can_transmit());
    socket.duplicate_ack_count = 3;
    assert!(socket.can_transmit());
}

#[test]
fn test_fd_set_bit() {
    let mut set = utp::timed_read::fd_set::new();
    utp::timed_read::fd_set(&mut set, 65);
    assert_eq!(set.fds_bits[1], 2);
    assert_eq!(set.fds_bits[0], 0);
    utp::timed_read::fd_set(&mut set, 0);
    assert_eq!(set.fds_bits[0], 1);
}

#[test]
fn test_packet_well_formedness_check() {
    let mut p = Packet::new();
    assert!(p.is_well_formed());
    p.set_sack(vec![0, 0, 0, 0]);
    assert!(p.is_well_formed());
}
