//! Length-prefixed framing and the frame-reader loop.
//!
//! On the wire a message is a 4-byte little-endian length followed by
//! exactly that many payload bytes.  A single-use reader walks a byte
//! stream frame by frame, emits one event per decoded message, and ends
//! with exactly one terminal event as soon as the stream is short, ends,
//! or a payload fails to decode.

use vstd::prelude::*;

use crate::codec::copy_range;
use crate::codec::decode_client_msg;
use crate::codec::decode_server_msg;
use crate::codec::le32_seq;
use crate::codec::le32_val;
use crate::codec::push_le32;
use crate::codec::read_le32;
use crate::codec::spec_decode_client;
use crate::codec::spec_decode_server;
use crate::protocol::lemma_deep_view_index;
use crate::protocol::ClientMsg;
use crate::protocol::ClientMsgV;
use crate::protocol::ServerMsg;
use crate::protocol::ServerMsgV;

verus! {

/// A payload as one frame: little-endian length, then the payload itself.
pub open spec fn spec_frame(payload: Seq<u8>) -> Seq<u8> {
    le32_seq(payload.len() as u32) + payload
}

/// Builds the frame for a payload.  Payloads beyond the length field's
/// range are a programming-contract violation, not a runtime condition.
pub fn frame(payload: &Vec<u8>) -> (r: Vec<u8>)
    requires
        payload@.len() <= u32::MAX,
    ensures
        r@ == spec_frame(payload@),
{
    let mut out: Vec<u8> = Vec::new();
    push_le32(&mut out, payload.len() as u32);
    out.extend_from_slice(payload.as_slice());
    proof {
        assert(out@ =~= spec_frame(payload@));
    }
    out
}

/// The first frame of a byte stream: its payload and how many bytes the
/// frame occupies; `None` when the stream ends before a whole frame.
pub open spec fn spec_next_frame(b: Seq<u8>) -> Option<(Seq<u8>, int)> {
    if b.len() < 4 {
        Option::None
    } else {
        let l = le32_val(b[0], b[1], b[2], b[3]) as int;
        if 4 + l <= b.len() {
            Option::Some((b.subrange(4, 4 + l), 4 + l))
        } else {
            Option::None
        }
    }
}

/// One event a reader emits: a decoded message, or the terminal notice
/// that the peer is gone.
pub enum ReadEvent<M> {
    Msg(M),
    Gone,
}

impl<M: DeepView> DeepView for ReadEvent<M> {
    type V = ReadEvent<M::V>;

    open spec fn deep_view(&self) -> ReadEvent<M::V> {
        match self {
            ReadEvent::Msg(m) => ReadEvent::Msg(m.deep_view()),
            ReadEvent::Gone => ReadEvent::Gone,
        }
    }
}

/// Everything a single-use reader emits for a byte stream that ends (EOF)
/// after `b`, decoding payloads with `dec`: one event per well-framed,
/// well-formed message, then exactly one terminal event — on a short
/// frame, on stream end, and equally on a payload that does not decode.
pub open spec fn spec_read_stream<MV>(b: Seq<u8>, dec: spec_fn(Seq<u8>) -> Option<MV>) -> Seq<
    ReadEvent<MV>,
>
    decreases b.len(),
{
    match spec_next_frame(b) {
        Option::None => seq![ReadEvent::Gone],
        Option::Some((p, c)) => match dec(p) {
            Option::None => seq![ReadEvent::Gone],
            Option::Some(m) => seq![ReadEvent::Msg(m)] + spec_read_stream(b.skip(c), dec),
        },
    }
}

/// What the server-side reader emits for one client's byte stream.
pub open spec fn spec_read_client_stream(b: Seq<u8>) -> Seq<ReadEvent<ClientMsgV>> {
    spec_read_stream(b, |p: Seq<u8>| spec_decode_client(p))
}

/// What the client-side reader emits for the server's byte stream.
pub open spec fn spec_read_server_stream(b: Seq<u8>) -> Seq<ReadEvent<ServerMsgV>> {
    spec_read_stream(b, |p: Seq<u8>| spec_decode_server(p))
}

/// Framing robustness: a stream truncated mid-payload — a length prefix
/// arrived, but the stream ends before the declared payload — yields
/// exactly one terminal event and no message at all.
pub proof fn lemma_truncated_stream<MV>(b: Seq<u8>, dec: spec_fn(Seq<u8>) -> Option<MV>)
    requires
        b.len() >= 4,
        4 + le32_val(b[0], b[1], b[2], b[3]) > b.len(),
    ensures
        spec_read_stream(b, dec) == seq![ReadEvent::<MV>::Gone],
{
    assert(spec_next_frame(b) is None);
}

/// Locates the first frame at or after `off`, returning its payload and
/// the offset just past it.
pub fn next_frame_at(b: &Vec<u8>, off: usize) -> (r: Option<(Vec<u8>, usize)>)
    requires
        off <= b@.len(),
    ensures
        match r {
            Option::Some(p) => {
                &&& spec_next_frame(b@.skip(off as int)) == Option::Some(
                    (p.0@, p.1 - off as int),
                )
                &&& off < p.1 <= b@.len()
            },
            Option::None => spec_next_frame(b@.skip(off as int)) is None,
        },
{
    let n = b.len();
    let ghost tail = b@.skip(off as int);
    if n - off < 4 {
        return Option::None;
    }
    let l = read_le32(b, off) as usize;
    proof {
        assert(tail[0] == b@[off as int] && tail[1] == b@[off + 1] && tail[2] == b@[off + 2]
            && tail[3] == b@[off + 3]);
    }
    if n - off - 4 < l {
        return Option::None;
    }
    let payload = copy_range(b, off + 4, off + 4 + l);
    proof {
        assert(payload@ =~= tail.subrange(4, 4 + l as int));
    }
    Option::Some((payload, off + 4 + l))
}

/// Runs the server-side reader over a finished byte stream: one event per
/// decoded client message, then the terminal event.
pub fn read_client_stream(b: &Vec<u8>) -> (r: Vec<ReadEvent<ClientMsg>>)
    ensures
        r.deep_view() == spec_read_client_stream(b@),
{
    let mut events: Vec<ReadEvent<ClientMsg>> = Vec::new();
    let mut off: usize = 0;
    proof {
        assert(events.deep_view() =~= Seq::<ReadEvent<ClientMsgV>>::empty());
        assert(b@.skip(0) =~= b@);
    }
    loop
        invariant
            off <= b@.len(),
            spec_read_client_stream(b@) == events.deep_view() + spec_read_client_stream(
                b@.skip(off as int),
            ),
        decreases b@.len() - off,
    {
        let ghost prev = events.deep_view();
        match next_frame_at(b, off) {
            Option::None => {
                events.push(ReadEvent::Gone);
                proof {
                    lemma_deep_view_index(&events);
                    assert(events.deep_view() =~= prev.push(ReadEvent::Gone));
                    assert(prev + seq![ReadEvent::<ClientMsgV>::Gone] =~= prev.push(
                        ReadEvent::Gone,
                    ));
                }
                return events;
            },
            Option::Some(p) => {
                let (payload, off2) = p;
                match decode_client_msg(&payload) {
                    Option::None => {
                        events.push(ReadEvent::Gone);
                        proof {
                            lemma_deep_view_index(&events);
                            assert(events.deep_view() =~= prev.push(ReadEvent::Gone));
                            assert(prev + seq![ReadEvent::<ClientMsgV>::Gone] =~= prev.push(
                                ReadEvent::Gone,
                            ));
                        }
                        return events;
                    },
                    Option::Some(m) => {
                        proof {
                            assert(b@.skip(off as int).skip(off2 - off as int) =~= b@.skip(
                                off2 as int,
                            ));
                        }
                        events.push(ReadEvent::Msg(m));
                        proof {
                            lemma_deep_view_index(&events);
                            assert(events.deep_view() =~= prev.push(ReadEvent::Msg(m@)));
                            assert(prev + (seq![ReadEvent::Msg(m@)] + spec_read_client_stream(
                                b@.skip(off2 as int),
                            )) =~= prev.push(ReadEvent::Msg(m@)) + spec_read_client_stream(
                                b@.skip(off2 as int),
                            ));
                        }
                        off = off2;
                    },
                }
            },
        }
    }
}

/// Runs the client-side reader over a finished byte stream: one event per
/// decoded server message, then the terminal event.
pub fn read_server_stream(b: &Vec<u8>) -> (r: Vec<ReadEvent<ServerMsg>>)
    ensures
        r.deep_view() == spec_read_server_stream(b@),
{
    let mut events: Vec<ReadEvent<ServerMsg>> = Vec::new();
    let mut off: usize = 0;
    proof {
        assert(events.deep_view() =~= Seq::<ReadEvent<ServerMsgV>>::empty());
        assert(b@.skip(0) =~= b@);
    }
    loop
        invariant
            off <= b@.len(),
            spec_read_server_stream(b@) == events.deep_view() + spec_read_server_stream(
                b@.skip(off as int),
            ),
        decreases b@.len() - off,
    {
        let ghost prev = events.deep_view();
        match next_frame_at(b, off) {
            Option::None => {
                events.push(ReadEvent::Gone);
                proof {
                    lemma_deep_view_index(&events);
                    assert(events.deep_view() =~= prev.push(ReadEvent::Gone));
                    assert(prev + seq![ReadEvent::<ServerMsgV>::Gone] =~= prev.push(
                        ReadEvent::Gone,
                    ));
                }
                return events;
            },
            Option::Some(p) => {
                let (payload, off2) = p;
                match decode_server_msg(&payload) {
                    Option::None => {
                        events.push(ReadEvent::Gone);
                        proof {
                            lemma_deep_view_index(&events);
                            assert(events.deep_view() =~= prev.push(ReadEvent::Gone));
                            assert(prev + seq![ReadEvent::<ServerMsgV>::Gone] =~= prev.push(
                                ReadEvent::Gone,
                            ));
                        }
                        return events;
                    },
                    Option::Some(m) => {
                        proof {
                            assert(b@.skip(off as int).skip(off2 - off as int) =~= b@.skip(
                                off2 as int,
                            ));
                        }
                        events.push(ReadEvent::Msg(m));
                        proof {
                            lemma_deep_view_index(&events);
                            assert(events.deep_view() =~= prev.push(ReadEvent::Msg(m@)));
                            assert(prev + (seq![ReadEvent::Msg(m@)] + spec_read_server_stream(
                                b@.skip(off2 as int),
                            )) =~= prev.push(ReadEvent::Msg(m@)) + spec_read_server_stream(
                                b@.skip(off2 as int),
                            ));
                        }
                        off = off2;
                    },
                }
            },
        }
    }
}

} // verus!
