use discurse::codec::decode_client_msg;
use discurse::codec::decode_server_msg;
use discurse::codec::encode_client_msg;
use discurse::codec::encode_server_msg;
use discurse::framing::frame;
use discurse::framing::read_client_stream;
use discurse::framing::read_server_stream;
use discurse::framing::ReadEvent;
use discurse::protocol::ClientDescription;
use discurse::protocol::ClientMsg;
use discurse::protocol::ServerMsg;
use discurse::protocol::UuidWrapper;

fn uuid_of(b: u8) -> UuidWrapper {
    UuidWrapper::from_bytes(vec![b; 16])
}

#[test]
fn client_round_trip_get_clients() {
    let bytes = encode_client_msg(&ClientMsg::GetClients);
    assert_eq!(bytes, vec![0u8]);
    assert!(matches!(decode_client_msg(&bytes), Some(ClientMsg::GetClients)));
}

#[test]
fn client_round_trip_nickname() {
    let m = ClientMsg::Nickname(b"alice".to_vec());
    let bytes = encode_client_msg(&m);
    assert_eq!(bytes, vec![1u8, 5, 0, 0, 0, b'a', b'l', b'i', b'c', b'e']);
    match decode_client_msg(&bytes) {
        Some(ClientMsg::Nickname(n)) => assert_eq!(n, b"alice".to_vec()),
        other => panic!("wrong decode: {:?}", other.is_some()),
    }
}

#[test]
fn client_round_trip_audio() {
    let m = ClientMsg::OpusAudio(vec![9, 8, 7]);
    let bytes = encode_client_msg(&m);
    assert_eq!(bytes, vec![2u8, 3, 0, 0, 0, 9, 8, 7]);
    match decode_client_msg(&bytes) {
        Some(ClientMsg::OpusAudio(a)) => assert_eq!(a, vec![9, 8, 7]),
        _ => panic!("wrong decode"),
    }
}

#[test]
fn client_round_trip_leave() {
    let bytes = encode_client_msg(&ClientMsg::Leave);
    assert_eq!(bytes, vec![3u8]);
    assert!(matches!(decode_client_msg(&bytes), Some(ClientMsg::Leave)));
}

#[test]
fn client_decode_rejects_trailing_bytes() {
    assert!(decode_client_msg(&vec![0u8, 0u8]).is_none());
    assert!(decode_client_msg(&vec![3u8, 1u8]).is_none());
}

#[test]
fn client_decode_rejects_bad_tag_and_short_input() {
    assert!(decode_client_msg(&vec![]).is_none());
    assert!(decode_client_msg(&vec![7u8]).is_none());
    assert!(decode_client_msg(&vec![1u8, 5, 0, 0, 0, b'a']).is_none());
}

#[test]
fn server_round_trip_version() {
    let bytes = encode_server_msg(&ServerMsg::Version(1));
    assert_eq!(bytes, vec![0u8, 1, 0, 0, 0, 0, 0, 0, 0]);
    assert!(matches!(decode_server_msg(&bytes), Some(ServerMsg::Version(1))));
    let big = encode_server_msg(&ServerMsg::Version(u64::MAX));
    assert!(matches!(decode_server_msg(&big), Some(ServerMsg::Version(u64::MAX))));
}

#[test]
fn server_round_trip_audio() {
    let m = ServerMsg::OpusAudio(uuid_of(0xAA), vec![1, 2, 3, 4]);
    let bytes = encode_server_msg(&m);
    match decode_server_msg(&bytes) {
        Some(ServerMsg::OpusAudio(id, a)) => {
            assert_eq!(id.bytes().clone(), vec![0xAA; 16]);
            assert_eq!(a, vec![1, 2, 3, 4]);
        },
        _ => panic!("wrong decode"),
    }
}

#[test]
fn server_round_trip_bye() {
    let m = ServerMsg::Bye { reason: b"done".to_vec() };
    let bytes = encode_server_msg(&m);
    assert_eq!(bytes, vec![3u8, 4, 0, 0, 0, b'd', b'o', b'n', b'e']);
    match decode_server_msg(&bytes) {
        Some(ServerMsg::Bye { reason }) => assert_eq!(reason, b"done".to_vec()),
        _ => panic!("wrong decode"),
    }
}

#[test]
fn server_round_trip_clients() {
    let roster = vec![
        ClientDescription { nickname: None, uuid: uuid_of(1) },
        ClientDescription { nickname: Some(b"alice".to_vec()), uuid: uuid_of(2) },
        ClientDescription { nickname: Some(b"".to_vec()), uuid: uuid_of(3) },
    ];
    let bytes = encode_server_msg(&ServerMsg::Clients(roster));
    match decode_server_msg(&bytes) {
        Some(ServerMsg::Clients(ds)) => {
            assert_eq!(ds.len(), 3);
            assert!(ds[0].nickname.is_none());
            assert_eq!(ds[0].uuid.bytes().clone(), vec![1; 16]);
            assert_eq!(ds[1].nickname.as_ref().unwrap().clone(), b"alice".to_vec());
            assert_eq!(ds[1].uuid.bytes().clone(), vec![2; 16]);
            assert_eq!(ds[2].nickname.as_ref().unwrap().clone(), Vec::<u8>::new());
            assert_eq!(ds[2].uuid.bytes().clone(), vec![3; 16]);
        },
        _ => panic!("wrong decode"),
    }
}

#[test]
fn server_round_trip_clients_empty() {
    let bytes = encode_server_msg(&ServerMsg::Clients(Vec::new()));
    assert_eq!(bytes, vec![1u8, 0, 0, 0, 0]);
    match decode_server_msg(&bytes) {
        Some(ServerMsg::Clients(ds)) => assert_eq!(ds.len(), 0),
        _ => panic!("wrong decode"),
    }
}

#[test]
fn server_decode_rejects_truncated_roster() {
    // Declares two entries, carries one.
    let roster = vec![ClientDescription { nickname: None, uuid: uuid_of(1) }];
    let mut bytes = encode_server_msg(&ServerMsg::Clients(roster));
    bytes[1] = 2;
    assert!(decode_server_msg(&bytes).is_none());
}

#[test]
fn frame_prefixes_length_little_endian() {
    let framed = frame(&vec![0xAB, 0xCD]);
    assert_eq!(framed, vec![2u8, 0, 0, 0, 0xAB, 0xCD]);
    let empty = frame(&Vec::new());
    assert_eq!(empty, vec![0u8, 0, 0, 0]);
}

#[test]
fn truncated_stream_yields_one_gone_and_no_message() {
    // Length prefix says 5 bytes; only 2 arrive before EOF.
    let stream = vec![5u8, 0, 0, 0, 1, 2];
    let events = read_client_stream(&stream);
    assert_eq!(events.len(), 1);
    assert!(matches!(events[0], ReadEvent::Gone));
    let events = read_server_stream(&stream);
    assert_eq!(events.len(), 1);
    assert!(matches!(events[0], ReadEvent::Gone));
}

#[test]
fn empty_and_short_streams_yield_one_gone() {
    assert_eq!(read_client_stream(&Vec::new()).len(), 1);
    assert_eq!(read_client_stream(&vec![1u8, 0]).len(), 1);
}

#[test]
fn undecodable_payload_ends_the_stream() {
    // A complete frame whose payload has an unknown tag, followed by a
    // valid frame that must never be reached.
    let mut stream = frame(&vec![9u8]);
    stream.extend_from_slice(&frame(&encode_client_msg(&ClientMsg::Leave)));
    let events = read_client_stream(&stream);
    assert_eq!(events.len(), 1);
    assert!(matches!(events[0], ReadEvent::Gone));
}

#[test]
fn stream_of_two_messages_then_eof() {
    let mut stream = Vec::new();
    stream.extend_from_slice(&frame(&encode_client_msg(&ClientMsg::Nickname(
        b"bob".to_vec(),
    ))));
    stream.extend_from_slice(&frame(&encode_client_msg(&ClientMsg::OpusAudio(vec![7, 7]))));
    let events = read_client_stream(&stream);
    assert_eq!(events.len(), 3);
    match &events[0] {
        ReadEvent::Msg(ClientMsg::Nickname(n)) => assert_eq!(n.clone(), b"bob".to_vec()),
        _ => panic!("expected nickname first"),
    }
    match &events[1] {
        ReadEvent::Msg(ClientMsg::OpusAudio(a)) => assert_eq!(a.clone(), vec![7, 7]),
        _ => panic!("expected audio second"),
    }
    assert!(matches!(events[2], ReadEvent::Gone));
}

#[test]
fn fresh_identifiers_are_sixteen_bytes() {
    let id = UuidWrapper::fresh();
    assert_eq!(id.bytes().len(), 16);
}
