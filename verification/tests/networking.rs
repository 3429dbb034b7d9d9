use wolf_gang::lobby::Config;
use wolf_gang::networking::{
    client_response, compress_message, decompress_message, fragment_payload, payload_uuid, prepare_outgoing,
    server_response, try_prepare_outgoing,
    Broadcast, BroadcastMessage, ClientAction, ClientEvent, ClientID, Disconnection, FragmentBuffer,
    MessageFragment, MessageType, NewConnection, OnClientConnected, Outgoing, Reassembly, ServerEvent,
    ServerResponse,
};

fn sample_payload(len: usize) -> Vec<u8> {
    (0..len).map(|i| (i * 7 % 251) as u8).collect()
}

fn fragment(uuid: u128, id: usize, pieces: usize, payload: Vec<u8>) -> MessageFragment {
    MessageFragment { uuid, id, size: 4, pieces, payload }
}

#[test]
fn client_ids_and_markers() {
    assert_eq!(ClientID::new(7).val(), 7);
    assert_eq!(ClientID::default().val(), 0);
    assert_eq!(NewConnection::new(3).0, 3);
    assert_eq!(Disconnection::new(4).0, 4);
    assert_eq!(OnClientConnected::new(5).0, 5);
    assert_eq!(Config::default().max_players, 2);
}

#[test]
fn payload_uuid_reads_the_head_big_endian() {
    let mut payload = vec![0u8; 20];
    payload[15] = 1;
    assert_eq!(payload_uuid(&payload), 1);
    payload[0] = 0x12;
    assert_eq!(payload_uuid(&payload), (0x12u128 << 120) | 1);
}

#[test]
fn fragments_cut_the_payload_in_order() {
    let payload = sample_payload(41);
    let fs = fragment_payload(&payload, 16);
    assert_eq!(fs.len(), 3);
    for (i, f) in fs.iter().enumerate() {
        assert_eq!(f.id, i);
        assert_eq!(f.pieces, 3);
        assert_eq!(f.size, 16);
        assert_eq!(f.uuid, payload_uuid(&payload));
    }
    assert_eq!(fs[0].payload, payload[0..16].to_vec());
    assert_eq!(fs[2].payload, payload[32..41].to_vec());
}

#[test]
fn buffer_joins_pieces_in_order_of_id() {
    let mut buffer = FragmentBuffer::new();
    assert!(buffer.receive(fragment(9, 2, 3, vec![9, 10])).is_none());
    assert!(buffer.receive(fragment(9, 0, 3, vec![1, 2, 3, 4])).is_none());
    let joined = buffer.receive(fragment(9, 1, 3, vec![5, 6, 7, 8])).unwrap();
    // All pieces, the newest among them, are joined in order of id.
    assert_eq!(joined, vec![1, 2, 3, 4, 5, 6, 7, 8, 9, 10]);
    // The message is gone from the buffer: a new piece with that id starts over.
    assert!(buffer.receive(fragment(9, 0, 2, vec![1])).is_none());
}

#[test]
fn buffer_keeps_messages_apart() {
    let mut buffer = FragmentBuffer::new();
    assert!(buffer.receive(fragment(1, 0, 2, vec![1])).is_none());
    assert!(buffer.receive(fragment(2, 0, 2, vec![2])).is_none());
    assert_eq!(buffer.receive(fragment(2, 1, 2, vec![3])).unwrap(), vec![2, 3]);
    assert_eq!(buffer.receive(fragment(1, 1, 2, vec![4])).unwrap(), vec![1, 4]);
}

#[test]
fn pieces_delivered_in_order_give_back_the_payload() {
    let payload = sample_payload(100);
    let fs = fragment_payload(&payload, 16);
    let mut buffer = FragmentBuffer::new();
    let n = fs.len();
    for (i, f) in fs.into_iter().enumerate() {
        let r = buffer.receive(f);
        if i + 1 < n {
            assert!(r.is_none());
        } else {
            assert_eq!(r.unwrap(), payload);
        }
    }
}

#[test]
fn small_messages_travel_whole_and_decompress_back() {
    let message = sample_payload(10);
    match prepare_outgoing(&message, 1000) {
        Outgoing::Whole(bytes) => {
            assert_ne!(bytes, message);
            assert_eq!(decompress_message(&bytes).unwrap(), message);
        }
        Outgoing::Fragments(_) => panic!("a small message should travel whole"),
    }
}

#[test]
fn large_messages_are_cut_and_reassembled() {
    let message = sample_payload(5000);
    match prepare_outgoing(&message, 64) {
        Outgoing::Whole(_) => panic!("a large message should be cut"),
        Outgoing::Fragments(fs) => {
            assert!(fs.len() > 1);
            let mut buffer = FragmentBuffer::new();
            let n = fs.len();
            for (i, f) in fs.into_iter().enumerate() {
                match buffer.receive_compressed(f) {
                    Reassembly::Pending => assert!(i + 1 < n),
                    Reassembly::Complete(bytes) => {
                        assert_eq!(i + 1, n);
                        assert_eq!(bytes, message);
                    }
                    Reassembly::Corrupt => panic!("the pieces should decompress"),
                }
            }
        }
    }
}

#[test]
fn garbage_does_not_decompress() {
    assert!(decompress_message(&vec![0xff, 0xff, 0xff, 0xff, 0xff, 0xff]).is_none());
    let mut buffer = FragmentBuffer::new();
    assert!(matches!(buffer.receive_compressed(fragment(3, 0, 2, vec![0xff, 0xff, 0xff])), Reassembly::Pending));
    assert!(matches!(buffer.receive_compressed(fragment(3, 1, 2, vec![0xff, 0xff, 0xff])), Reassembly::Corrupt));
}

#[test]
fn server_answers_each_event() {
    assert_eq!(
        server_response(ServerEvent::Connection(4), 2),
        ServerResponse {
            broadcast: Some(BroadcastMessage { data: Broadcast::NewConnection(NewConnection(4)), message_type: MessageType::Reliable }),
            on_client_connected: Some(OnClientConnected(4)),
            close: false,
        }
    );
    assert_eq!(
        server_response(ServerEvent::Message(4, MessageType::Ordered), 2),
        ServerResponse {
            broadcast: Some(BroadcastMessage { data: Broadcast::Relay, message_type: MessageType::Ordered }),
            on_client_connected: None,
            close: false,
        }
    );
    let left = server_response(ServerEvent::ConnectionLost(4), 0);
    assert_eq!(
        left.broadcast,
        Some(BroadcastMessage { data: Broadcast::Disconnection(Disconnection(4)), message_type: MessageType::Reliable })
    );
    assert!(left.close);
    assert!(!server_response(ServerEvent::ConnectionClosed(4), 1).close);
    assert_eq!(server_response(ServerEvent::PacketLost(4), 0).broadcast, None);
    assert!(!server_response(ServerEvent::CongestionStateChanged(4), 0).close);
}

#[test]
fn client_answers_each_event() {
    assert_eq!(client_response(ClientEvent::Connection(6)), ClientAction::SetClientID(6));
    assert_eq!(client_response(ClientEvent::Message), ClientAction::HandleMessage);
    assert_eq!(client_response(ClientEvent::ConnectionLost), ClientAction::Disconnect);
    assert_eq!(client_response(ClientEvent::ConnectionClosed), ClientAction::Disconnect);
    assert_eq!(client_response(ClientEvent::PacketLost), ClientAction::Nothing);
}

#[test]
fn pieces_arriving_backwards_are_joined_in_order() {
    let mut buffer = FragmentBuffer::new();
    assert!(buffer.receive(fragment(5, 1, 2, vec![2])).is_none());
    assert_eq!(buffer.receive(fragment(5, 0, 2, vec![1])).unwrap(), vec![1, 2]);
}

#[test]
fn pieces_in_any_order_give_back_the_payload() {
    let payload = sample_payload(100);
    let mut fs = fragment_payload(&payload, 16);
    fs.reverse();
    let n = fs.len();
    let mut buffer = FragmentBuffer::new();
    for (i, f) in fs.into_iter().enumerate() {
        let r = buffer.receive(f);
        if i + 1 < n {
            assert!(r.is_none());
        } else {
            assert_eq!(r.unwrap(), payload);
        }
    }
}

#[test]
fn queued_messages_go_only_to_their_own_client() {
    use_route();
}

fn use_route() {
    let open = vec![1u32, 4, 7];
    assert_eq!(wolf_gang::networking::route_queued(4, &open), Some(4));
    assert_eq!(wolf_gang::networking::route_queued(5, &open), None);
    assert_eq!(wolf_gang::networking::route_queued(5, &Vec::new()), None);
}

#[test]
fn compressed_messages_decompress_back() {
    let message = sample_payload(300);
    let packet = wolf_gang::networking::compress_message(&message).unwrap();
    assert_ne!(packet, message);
    assert_eq!(decompress_message(&packet).unwrap(), message);
}

#[test]
fn pieces_smaller_than_a_message_id_work_where_the_payload_holds_one() {
    let message = sample_payload(40);
    let compressed = compress_message(&message).unwrap();
    assert!(compressed.len() >= 16);
    match prepare_outgoing(&message, 4) {
        Outgoing::Whole(_) => panic!("the payload is larger than a piece"),
        Outgoing::Fragments(fs) => {
            assert_eq!(fs.len(), (compressed.len() + 3) / 4);
            assert!(fs.iter().all(|f| f.size == 4 && f.pieces == fs.len()));
        }
    }
}

#[test]
fn a_payload_too_short_for_a_message_id_is_refused() {
    let message = sample_payload(10);
    let compressed = compress_message(&message).unwrap();
    assert!(compressed.len() > 4 && compressed.len() < 16);
    assert!(try_prepare_outgoing(&message, 4).is_none());
    assert!(matches!(try_prepare_outgoing(&message, 1000), Some(Outgoing::Whole(_))));
}
