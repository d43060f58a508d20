//! End-to-end scenarios driven over a simulated wire: two endpoints exchange
//! packets directly, with the tests playing the role of the UDP socket.

use utp::packet::{Packet, PacketType};
use utp::socket::{SocketState, UtpSocket, BUF_SIZE};

fn handshake() -> (UtpSocket, UtpSocket) {
    let mut initiator = UtpSocket::new();
    let mut acceptor = UtpSocket::new();
    let syn = initiator.connect_syn();
    assert_eq!(initiator.state, SocketState::SynSent);
    let (reply, _) = acceptor.handle_packet(&syn, 10).unwrap();
    let reply = reply.unwrap();
    assert_eq!(reply.get_type(), PacketType::State);
    let (none, _) = initiator.handle_packet(&reply, 20).unwrap();
    assert!(none.is_none());
    assert_eq!(initiator.state, SocketState::Connected);
    assert_eq!(acceptor.state, SocketState::Connected);
    (initiator, acceptor)
}

fn transmit_all(sender: &mut UtpSocket, now: u32) -> Vec<Packet> {
    let mut sent = Vec::new();
    while let Some(mut p) = sender.pop_unsent() {
        sender.prepare_for_send(&mut p, now);
        sender.record_transmit(p.clone());
        sent.push(p);
    }
    sent
}

fn deliver_data(receiver: &mut UtpSocket, p: Packet, now: u32) -> Option<Packet> {
    let (reply, _) = receiver.handle_packet(&p, now).unwrap();
    receiver.insert_if_fresh(p);
    reply
}

fn read_available(receiver: &mut UtpSocket) -> Vec<u8> {
    let mut out = Vec::new();
    loop {
        let mut buf = vec![0u8; BUF_SIZE];
        let n = receiver.flush_incoming_buffer(&mut buf);
        if n == 0 {
            break;
        }
        out.extend_from_slice(&buf[..n]);
    }
    out
}

#[test]
fn test_loopback_echo() {
    let (mut client, mut server) = handshake();
    // The two sides share the same pair of connection ids, swapped.
    assert_eq!(client.sender_connection_id, client.receiver_connection_id.wrapping_add(1));
    assert_eq!(server.receiver_connection_id, client.sender_connection_id);
    assert_eq!(server.sender_connection_id, client.receiver_connection_id);

    let mut received: Vec<u8> = Vec::new();
    let chunks: [[u8; 3]; 4] = [[1, 2, 3], [4, 5, 6], [7, 8, 9], [10, 11, 12]];
    for chunk in chunks.iter() {
        assert_eq!(client.queue_outgoing(chunk).unwrap(), 3);
        for p in transmit_all(&mut client, 100) {
            let reply = deliver_data(&mut server, p, 110).unwrap();
            let (none, _) = client.handle_packet(&reply, 120).unwrap();
            assert!(none.is_none());
        }
        received.extend(read_available(&mut server));
    }

    // Graceful close.
    let fin = client.close_request().unwrap();
    assert_eq!(client.state, SocketState::FinSent);
    let (reply, _) = server.handle_packet(&fin, 130).unwrap();
    let reply = reply.unwrap();
    assert_eq!(reply.get_type(), PacketType::State);
    assert_eq!(server.state, SocketState::Closed);
    let _ = client.handle_packet(&reply, 140).unwrap();
    assert_eq!(client.state, SocketState::Closed);

    let expected: Vec<u8> = (1..=12).collect();
    assert_eq!(received, expected);
    assert_eq!(server.receiver_connection_id, server.sender_connection_id.wrapping_add(1));
}

#[test]
fn test_reordered_data() {
    let (client, mut server) = handshake();
    let s = client.seq_nr;

    let mut window: Vec<Packet> = Vec::new();
    for i in 0u8..5 {
        let mut p = Packet::new();
        p.set_wnd_size(BUF_SIZE as u32);
        p.set_type(PacketType::Data);
        p.set_connection_id(client.sender_connection_id);
        p.set_seq_nr(s.wrapping_add(i as u16));
        p.set_ack_nr(client.ack_nr);
        p.payload = vec![3 * i + 1, 3 * i + 2, 3 * i + 3];
        window.push(p);
    }

    // Wire order: s+3, s+2, s+1, s, s+4.
    for &i in [3usize, 2, 1, 0, 4].iter() {
        let _ = deliver_data(&mut server, window[i].clone(), 100);
    }

    let received = read_available(&mut server);
    let expected: Vec<u8> = (1..=15).collect();
    assert_eq!(received, expected);
}

#[test]
fn test_triple_ack_retransmit() {
    let (mut client, mut server) = handshake();
    let data: Vec<u8> = (0..1024).map(|i| i as u8).collect();
    assert_eq!(client.queue_outgoing(&data).unwrap(), 1024);
    let sent = transmit_all(&mut client, 100);
    assert_eq!(sent.len(), 1);
    let data_packet = &sent[0];

    // Three identical State packets acknowledging the previous sequence number.
    let mut ack = Packet::new();
    ack.set_wnd_size(BUF_SIZE as u32);
    ack.set_type(PacketType::State);
    ack.set_seq_nr(server.seq_nr);
    ack.set_ack_nr(data_packet.seq_nr().wrapping_sub(1));
    ack.set_connection_id(server.sender_connection_id);

    let mut resent: Vec<Packet> = Vec::new();
    for _ in 0..3 {
        let (reply, mut rs) = client.handle_packet(&ack, 200).unwrap();
        assert!(reply.is_none());
        resent.append(&mut rs);
    }

    // Exactly the original data packet is retransmitted.
    assert_eq!(resent.len(), 1);
    assert_eq!(resent[0].seq_nr(), data_packet.seq_nr());
    assert!(resent[0].payload == data_packet.payload);
}

#[test]
fn test_selective_ack_recovers_dropped_packets() {
    let (mut client, mut server) = handshake();
    let total: usize = 10 * 1380;
    let data: Vec<u8> = (0..total).map(|i| (i % 251) as u8).collect();
    assert_eq!(client.queue_outgoing(&data).unwrap(), total);
    let sent = transmit_all(&mut client, 100);
    assert_eq!(sent.len(), 10);

    let mut received: Vec<u8> = Vec::new();
    let mut pending: Vec<Packet> = Vec::new();

    // Odd-indexed packets are silently dropped by the network. As in the
    // real receive loop, the consumer reads after every datagram.
    for (i, p) in sent.iter().enumerate() {
        if i % 2 == 0 {
            if let Some(r) = deliver_data(&mut server, p.clone(), 110) {
                pending.push(r);
            }
            received.extend(read_available(&mut server));
        }
    }

    // Feed the acknowledgements back; retransmissions fill the gaps.
    let mut rounds = 0;
    while received.len() < total && rounds < 20 {
        rounds += 1;
        let mut resends: Vec<Packet> = Vec::new();
        for r in pending.drain(..) {
            let (_, mut rs) = client.handle_packet(&r, 200).unwrap();
            resends.append(&mut rs);
        }
        let mut new_replies = Vec::new();
        for p in resends {
            if let Some(r) = deliver_data(&mut server, p, 210) {
                new_replies.push(r);
            }
            received.extend(read_available(&mut server));
        }
        pending = new_replies;
    }

    assert_eq!(received.len(), total);
    assert_eq!(received, data);
}

#[test]
fn test_sequence_number_rollover() {
    let (mut client, mut server) = handshake();
    let total: usize = 4 * 1400;

    // Start just below the wrap point, as a long-lived connection would.
    let start: u16 = 65535 - (total / (2 * 1400)) as u16;
    client.seq_nr = start;
    server.ack_nr = start.wrapping_sub(1);
    server.last_dropped = start.wrapping_sub(1);

    let data: Vec<u8> = (0..total).map(|i| (i % 239) as u8).collect();
    assert_eq!(client.queue_outgoing(&data).unwrap(), total);

    let mut received: Vec<u8> = Vec::new();
    for p in transmit_all(&mut client, 100) {
        if let Some(r) = deliver_data(&mut server, p, 110) {
            let _ = client.handle_packet(&r, 120).unwrap();
        }
        received.extend(read_available(&mut server));
    }

    assert!(client.seq_nr < 50);
    assert_eq!(received.len(), total);
    assert_eq!(received, data);
}
