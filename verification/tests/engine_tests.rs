use discurse::codec::decode_client_msg;
use discurse::codec::encode_client_msg;
use discurse::engine::EngineAction;
use discurse::engine::EngineEvent;
use discurse::engine::RelayEngine;
use discurse::engine::ServEmu;
use discurse::engine::SessionPhase;
use discurse::engine::EMU_FRAME_SIZE;
use discurse::engine::OPUS_FRAME_SIZE;
use discurse::protocol::ClientMsg;
use discurse::protocol::ServerMsg;
use discurse::protocol::UuidWrapper;
use discurse::relay::Registry;

fn uuid_of(b: u8) -> UuidWrapper {
    UuidWrapper::from_bytes(vec![b; 16])
}

fn active_engine(frame_size: usize) -> RelayEngine {
    let mut e = RelayEngine::new(frame_size);
    e.connected();
    let acts = e.step(EngineEvent::FromServer(ServerMsg::Version(1)));
    assert!(acts.is_empty());
    assert!(matches!(e.phase, SessionPhase::Active));
    e
}

fn frame_lengths(actions: &[EngineAction]) -> Vec<usize> {
    actions
        .iter()
        .map(|a| match a {
            EngineAction::SendFrame(f) => f.len(),
            _ => panic!("expected only frames"),
        })
        .collect()
}

#[test]
fn chunks_of_every_size_yield_exact_frames() {
    let n = 8usize;
    let mut e = active_engine(n);
    let mut all_lengths: Vec<usize> = Vec::new();
    let mut sent: Vec<u32> = Vec::new();
    let mut next: u32 = 0;
    // Arrival pattern: chunks of size 1, N-1, N, N+1, 10*N.
    for size in [1usize, n - 1, n, n + 1, 10 * n] {
        let chunk: Vec<u32> = (0..size).map(|_| {
            next += 1;
            next
        }).collect();
        let actions = e.step(EngineEvent::MicChunk(chunk));
        for a in &actions {
            match a {
                EngineAction::SendFrame(f) => {
                    all_lengths.push(f.len());
                    sent.extend_from_slice(f);
                },
                _ => panic!("a capture chunk causes only frame sends"),
            }
        }
    }
    // Every encode call gets exactly N samples.
    assert!(all_lengths.iter().all(|&l| l == n));
    // 1 + 7 + 8 + 9 + 80 = 105 samples: 13 full frames, 1 left over.
    assert_eq!(all_lengths.len(), 13);
    assert_eq!(e.backlog.len(), 1);
    // The samples went out in capture order, none lost, none duplicated.
    let expected: Vec<u32> = (1..=104).collect();
    assert_eq!(sent, expected);
    assert_eq!(e.backlog, vec![105]);
}

#[test]
fn sub_frame_backlog_is_buffered_not_flushed() {
    let mut e = active_engine(4);
    let actions = e.step(EngineEvent::MicChunk(vec![1, 2, 3]));
    assert!(actions.is_empty());
    assert_eq!(e.backlog, vec![1, 2, 3]);
    let actions = e.step(EngineEvent::MicChunk(vec![4]));
    assert_eq!(frame_lengths(&actions), vec![4]);
    assert!(e.backlog.is_empty());
}

#[test]
fn inbound_audio_is_played_not_mixed() {
    let mut e = active_engine(4);
    let actions = e.step(EngineEvent::FromServer(ServerMsg::OpusAudio(
        uuid_of(9),
        vec![5, 6],
    )));
    assert_eq!(actions.len(), 1);
    match &actions[0] {
        EngineAction::PlayPacket(a) => assert_eq!(a.clone(), vec![5, 6]),
        _ => panic!("inbound audio must be played"),
    }
}

#[test]
fn bye_gone_and_shutdown_close_the_session() {
    let mut e = active_engine(4);
    e.step(EngineEvent::FromServer(ServerMsg::Bye { reason: b"x".to_vec() }));
    assert!(matches!(e.phase, SessionPhase::Closed));
    // Events after close are ignored: the worker has left its loop.
    let actions = e.step(EngineEvent::MicChunk(vec![1, 2, 3, 4, 5]));
    assert!(actions.is_empty());
    assert!(e.backlog.is_empty());

    let mut e = active_engine(4);
    e.step(EngineEvent::ServerGone);
    assert!(matches!(e.phase, SessionPhase::Closed));

    // A shutdown discards the sub-frame backlog.
    let mut e = active_engine(4);
    e.step(EngineEvent::MicChunk(vec![1, 2]));
    e.step(EngineEvent::Shutdown);
    assert!(matches!(e.phase, SessionPhase::Closed));
    assert!(e.backlog.is_empty());
}

#[test]
fn version_notice_activates_the_session() {
    let mut e = RelayEngine::new(4);
    assert!(matches!(e.phase, SessionPhase::Connecting));
    e.connected();
    assert!(matches!(e.phase, SessionPhase::AwaitingVersion));
    e.step(EngineEvent::FromServer(ServerMsg::Version(1)));
    assert!(matches!(e.phase, SessionPhase::Active));
}

#[test]
fn run_events_concatenates_actions_in_order() {
    let mut e = active_engine(2);
    let actions = e.run_events(vec![
        EngineEvent::MicChunk(vec![1, 2, 3]),
        EngineEvent::FromServer(ServerMsg::OpusAudio(uuid_of(1), vec![9])),
        EngineEvent::MicChunk(vec![4]),
    ]);
    assert_eq!(actions.len(), 3);
    match &actions[0] {
        EngineAction::SendFrame(f) => assert_eq!(f.clone(), vec![1, 2]),
        _ => panic!("first action must be the first frame"),
    }
    assert!(matches!(&actions[1], EngineAction::PlayPacket(_)));
    match &actions[2] {
        EngineAction::SendFrame(f) => assert_eq!(f.clone(), vec![3, 4]),
        _ => panic!("last action must be the second frame"),
    }
}

#[test]
fn emulator_engine_is_active_with_its_own_frame_size() {
    let emu = ServEmu::new();
    let e = emu.engine();
    assert!(matches!(e.phase, SessionPhase::Active));
    assert_eq!(e.frame_size, EMU_FRAME_SIZE);
    assert_eq!(EMU_FRAME_SIZE, 960);
    assert_eq!(OPUS_FRAME_SIZE, 2880);
}

/// Three clients connect; A sets a nickname; B captures two frames' worth
/// of samples; the relay routes two ordered packets to A and C, none to B.
#[test]
fn end_to_end_three_clients() {
    let n = 4usize;
    let a = uuid_of(1);
    let b = uuid_of(2);
    let c = uuid_of(3);

    let mut reg = Registry::new();
    reg.register(&a);
    reg.register(&b);
    reg.register(&c);
    assert!(reg.handle_packet(&a, ClientMsg::Nickname(b"alice".to_vec())).is_empty());

    // B's engine turns two consecutive capture chunks into exactly two
    // frames, in capture order.
    let mut engine_b = active_engine(n);
    let mut wire_payloads: Vec<Vec<u8>> = Vec::new();
    for chunk in [vec![1u32, 2, 3, 4], vec![5u32, 6, 7, 8]] {
        let actions = engine_b.step(EngineEvent::MicChunk(chunk));
        for act in actions {
            match act {
                EngineAction::SendFrame(f) => {
                    assert_eq!(f.len(), n);
                    // Stand-in for the codec: the encoded block carries the
                    // low byte of each sample.
                    let encoded: Vec<u8> = f.iter().map(|s| *s as u8).collect();
                    wire_payloads.push(encode_client_msg(&ClientMsg::OpusAudio(encoded)));
                },
                _ => panic!("capture causes only frame sends"),
            }
        }
    }
    assert_eq!(wire_payloads.len(), 2);

    // The server decodes each packet and fans it out.
    let mut per_peer: Vec<(Vec<u8>, Vec<Vec<u8>>)> = Vec::new();
    for payload in &wire_payloads {
        let msg = decode_client_msg(payload).expect("a framed packet decodes");
        let deliveries = reg.handle_packet(&b, msg);
        for d in deliveries {
            match d.msg {
                ServerMsg::OpusAudio(from, audio) => {
                    assert_eq!(from.bytes().clone(), vec![2u8; 16]);
                    let to = d.to.bytes().clone();
                    assert_ne!(to, vec![2u8; 16]);
                    match per_peer.iter_mut().find(|(id, _)| *id == to) {
                        Some((_, list)) => list.push(audio),
                        None => per_peer.push((to, vec![audio])),
                    }
                },
                _ => panic!("fan-out carries audio"),
            }
        }
    }

    // A and C each received both packets, in B's send order.
    assert_eq!(per_peer.len(), 2);
    for (id, list) in &per_peer {
        assert!(*id == vec![1u8; 16] || *id == vec![3u8; 16]);
        assert_eq!(list.len(), 2);
        assert_eq!(list[0], vec![1, 2, 3, 4]);
        assert_eq!(list[1], vec![5, 6, 7, 8]);
    }
}
