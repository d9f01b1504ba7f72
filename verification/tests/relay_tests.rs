use discurse::protocol::ClientMsg;
use discurse::protocol::ServerMsg;
use discurse::protocol::UuidWrapper;
use discurse::relay::Delivery;
use discurse::relay::Registry;
use discurse::writer::msg_for_instr;
use discurse::writer::shutdown_reason;
use discurse::writer::version_msg;
use discurse::writer::writer_script;
use discurse::writer::ToClient;
use discurse::writer::PROTOCOL_VERSION;

fn uuid_of(b: u8) -> UuidWrapper {
    UuidWrapper::from_bytes(vec![b; 16])
}

fn targets(deliveries: &[Delivery]) -> Vec<Vec<u8>> {
    deliveries.iter().map(|d| d.to.bytes().clone()).collect()
}

#[test]
fn fanout_excludes_the_sender() {
    let mut reg = Registry::new();
    let a = uuid_of(1);
    let b = uuid_of(2);
    let c = uuid_of(3);
    reg.register(&a);
    reg.register(&b);
    reg.register(&c);
    let deliveries = reg.handle_packet(&a, ClientMsg::OpusAudio(vec![42, 43]));
    assert_eq!(targets(&deliveries), vec![vec![2u8; 16], vec![3u8; 16]]);
    for d in &deliveries {
        match &d.msg {
            ServerMsg::OpusAudio(from, audio) => {
                assert_eq!(from.bytes().clone(), vec![1u8; 16]);
                assert_eq!(audio.clone(), vec![42, 43]);
            },
            _ => panic!("fan-out must carry audio"),
        }
    }
}

#[test]
fn dead_peer_is_pruned_and_skipped() {
    let mut reg = Registry::new();
    let a = uuid_of(1);
    let b = uuid_of(2);
    let c = uuid_of(3);
    reg.register(&a);
    reg.register(&b);
    reg.register(&c);
    // First packet from A: the delivery to B fails (its channel is gone).
    let deliveries = reg.handle_packet(&a, ClientMsg::OpusAudio(vec![1]));
    assert_eq!(targets(&deliveries), vec![vec![2u8; 16], vec![3u8; 16]]);
    reg.prune_failed(&vec![uuid_of(2)]);
    assert!(!reg.contains_id(&b));
    assert!(reg.contains_id(&a));
    assert!(reg.contains_id(&c));
    // The next packet is not attempted against B.
    let deliveries = reg.handle_packet(&a, ClientMsg::OpusAudio(vec![2]));
    assert_eq!(targets(&deliveries), vec![vec![3u8; 16]]);
}

#[test]
fn nickname_updates_the_roster() {
    let mut reg = Registry::new();
    let a = uuid_of(1);
    let b = uuid_of(2);
    reg.register(&a);
    reg.register(&b);
    let deliveries = reg.handle_packet(&a, ClientMsg::Nickname(b"alice".to_vec()));
    assert!(deliveries.is_empty());
    let roster = reg.roster();
    assert_eq!(roster.len(), 2);
    assert_eq!(roster[0].nickname.as_ref().unwrap().clone(), b"alice".to_vec());
    assert!(roster[1].nickname.is_none());
}

#[test]
fn roster_request_is_answered_to_the_sender() {
    let mut reg = Registry::new();
    let a = uuid_of(1);
    let b = uuid_of(2);
    reg.register(&a);
    reg.register(&b);
    let deliveries = reg.handle_packet(&b, ClientMsg::GetClients);
    assert_eq!(deliveries.len(), 1);
    assert_eq!(deliveries[0].to.bytes().clone(), vec![2u8; 16]);
    match &deliveries[0].msg {
        ServerMsg::Clients(ds) => {
            assert_eq!(ds.len(), 2);
            assert_eq!(ds[0].uuid.bytes().clone(), vec![1u8; 16]);
            assert_eq!(ds[1].uuid.bytes().clone(), vec![2u8; 16]);
        },
        _ => panic!("roster request must be answered with the roster"),
    }
}

#[test]
fn leave_removes_the_sender() {
    let mut reg = Registry::new();
    let a = uuid_of(1);
    let b = uuid_of(2);
    reg.register(&a);
    reg.register(&b);
    let deliveries = reg.handle_packet(&a, ClientMsg::Leave);
    assert!(deliveries.is_empty());
    assert!(!reg.contains_id(&a));
    assert_eq!(reg.len(), 1);
    // Removal is idempotent.
    reg.remove_id(&a);
    assert_eq!(reg.len(), 1);
}

#[test]
fn reregistering_resets_the_entry() {
    let mut reg = Registry::new();
    let a = uuid_of(1);
    reg.register(&a);
    reg.handle_packet(&a, ClientMsg::Nickname(b"alice".to_vec()));
    reg.register(&a);
    assert_eq!(reg.len(), 1);
    let roster = reg.roster();
    assert!(roster[0].nickname.is_none());
}

#[test]
fn writer_puts_the_version_first() {
    let instrs = vec![
        ToClient::Audio(uuid_of(7), vec![1, 2]),
        ToClient::Shutdown,
        ToClient::Audio(uuid_of(8), vec![3]),
    ];
    let msgs = writer_script(&instrs);
    // Version first, one message per instruction up to the shutdown's Bye;
    // nothing after the close.
    assert_eq!(msgs.len(), 3);
    assert!(matches!(msgs[0], ServerMsg::Version(PROTOCOL_VERSION)));
    match &msgs[1] {
        ServerMsg::OpusAudio(from, audio) => {
            assert_eq!(from.bytes().clone(), vec![7u8; 16]);
            assert_eq!(audio.clone(), vec![1, 2]);
        },
        _ => panic!("expected relayed audio"),
    }
    match &msgs[2] {
        ServerMsg::Bye { reason } => {
            assert_eq!(reason.clone(), b"Server requested shutdown".to_vec())
        },
        _ => panic!("expected the goodbye"),
    }
}

#[test]
fn writer_with_no_instructions_sends_only_the_version() {
    let msgs = writer_script(&Vec::new());
    assert_eq!(msgs.len(), 1);
    assert!(matches!(msgs[0], ServerMsg::Version(1)));
}

#[test]
fn shutdown_instruction_closes_the_connection() {
    let (m, close) = msg_for_instr(&ToClient::Shutdown);
    assert!(close);
    assert!(matches!(m, ServerMsg::Bye { .. }));
    let (m, close) = msg_for_instr(&ToClient::Audio(uuid_of(1), vec![5]));
    assert!(!close);
    assert!(matches!(m, ServerMsg::OpusAudio(_, _)));
    assert!(matches!(version_msg(), ServerMsg::Version(1)));
    assert_eq!(shutdown_reason(), b"Server requested shutdown".to_vec());
}
