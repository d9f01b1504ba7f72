//! The per-connection frame writer's message policy.
//!
//! A writer owns one connection's outbound half.  It writes the protocol
//! version notice first — before anything else — then one message per
//! instruction in receipt order, and on the shutdown instruction a final
//! `Bye` after which the connection closes and nothing more is written.

use vstd::prelude::*;

use crate::codec::copy_range;
use crate::protocol::ClientDescription;
use crate::protocol::ClientDescriptionV;
use crate::protocol::lemma_deep_view_index;
use crate::protocol::ServerMsg;
use crate::protocol::ServerMsgV;
use crate::protocol::UuidWrapper;

verus! {

/// The protocol version this library speaks.
pub const PROTOCOL_VERSION: u64 = 1;

/// Mathematical model of one writer instruction.
pub enum ToClientV {
    Audio(Seq<u8>, Seq<u8>),
    Roster(Seq<ClientDescriptionV>),
    Shutdown,
}

/// One instruction for a client's writer: relay a peer's audio, send a
/// roster snapshot, or say goodbye and close.
pub enum ToClient {
    Audio(UuidWrapper, Vec<u8>),
    Roster(Vec<ClientDescription>),
    Shutdown,
}

impl View for ToClient {
    type V = ToClientV;

    open spec fn view(&self) -> ToClientV {
        match self {
            ToClient::Audio(id, a) => ToClientV::Audio(id@, a@),
            ToClient::Roster(ds) => ToClientV::Roster(ds.deep_view()),
            ToClient::Shutdown => ToClientV::Shutdown,
        }
    }
}

impl DeepView for ToClient {
    type V = ToClientV;

    open spec fn deep_view(&self) -> ToClientV {
        self@
    }
}

/// The text sent with the writer's final `Bye`.
pub open spec fn spec_shutdown_reason() -> Seq<u8> {
    seq![
        83u8, 101u8, 114u8, 118u8, 101u8, 114u8, 32u8, 114u8, 101u8, 113u8, 117u8, 101u8,
        115u8, 116u8, 101u8, 100u8, 32u8, 115u8, 104u8, 117u8, 116u8, 100u8, 111u8, 119u8,
        110u8,
    ]
}

/// The bytes of "Server requested shutdown".
pub fn shutdown_reason() -> (r: Vec<u8>)
    ensures
        r@ == spec_shutdown_reason(),
{
    let v: Vec<u8> = vec![
        83u8, 101u8, 114u8, 118u8, 101u8, 114u8, 32u8, 114u8, 101u8, 113u8, 117u8, 101u8,
        115u8, 116u8, 101u8, 100u8, 32u8, 115u8, 104u8, 117u8, 116u8, 100u8, 111u8, 119u8,
        110u8,
    ];
    proof {
        assert(v@ =~= spec_shutdown_reason());
    }
    v
}

/// The message a writer sends for one instruction, and whether the
/// connection closes right after it.
pub open spec fn spec_msg_for_instr(t: ToClientV) -> (ServerMsgV, bool) {
    match t {
        ToClientV::Audio(id, a) => (ServerMsgV::OpusAudio(id, a), false),
        ToClientV::Roster(ds) => (ServerMsgV::Clients(ds), false),
        ToClientV::Shutdown => (
            ServerMsgV::Bye { reason: spec_shutdown_reason() },
            true,
        ),
    }
}

/// The messages written after the version notice: one per instruction, in
/// receipt order, up to and including the first shutdown.
pub open spec fn spec_writer_tail(instrs: Seq<ToClientV>) -> Seq<ServerMsgV>
    decreases instrs.len(),
{
    if instrs.len() == 0 {
        Seq::empty()
    } else if instrs[0] is Shutdown {
        seq![spec_msg_for_instr(instrs[0]).0]
    } else {
        seq![spec_msg_for_instr(instrs[0]).0] + spec_writer_tail(instrs.skip(1))
    }
}

/// Everything a writer puts on one connection, given the instructions it
/// consumes: the version notice first, then the instruction messages.
pub open spec fn spec_writer_script(instrs: Seq<ToClientV>) -> Seq<ServerMsgV> {
    seq![ServerMsgV::Version(PROTOCOL_VERSION)] + spec_writer_tail(instrs)
}

/// Version-first invariant: in any accepted session, whatever instructions
/// the writer consumes, the first message on the wire is the protocol
/// version notice — before any roster, audio or goodbye.
pub proof fn lemma_version_first(instrs: Seq<ToClientV>)
    ensures
        spec_writer_script(instrs).len() >= 1,
        spec_writer_script(instrs)[0] == ServerMsgV::Version(PROTOCOL_VERSION),
        forall|k: int|
            1 <= k < spec_writer_script(instrs).len() ==> !((#[trigger] spec_writer_script(
                instrs,
            )[k]) is Version),
    decreases instrs.len(),
{
    if instrs.len() == 0 {
    } else {
        lemma_version_first(instrs.skip(1));
        let tail = spec_writer_tail(instrs);
        let tail1 = spec_writer_tail(instrs.skip(1));
        if instrs[0] is Shutdown {
        } else {
            assert(forall|k: int| 1 <= k < tail.len() ==> tail[k] == (#[trigger] tail1[k - 1]));
            assert(forall|k: int|
                1 <= k < tail1.len() + 1 ==> spec_writer_script(instrs.skip(1))[k] == (
                #[trigger] tail1[k - 1]));
        }
    }
}

/// The version notice, as sent once, immediately after accept.
pub fn version_msg() -> (m: ServerMsg)
    ensures
        m@ == ServerMsgV::Version(PROTOCOL_VERSION),
{
    ServerMsg::Version(PROTOCOL_VERSION)
}

/// The message to write for one instruction; `true` means the connection
/// closes right after the write.
pub fn msg_for_instr(t: &ToClient) -> (r: (ServerMsg, bool))
    ensures
        (r.0@, r.1) == spec_msg_for_instr(t@),
{
    match t {
        ToClient::Audio(id, a) => {
            let payload = copy_range(a, 0, a.len());
            proof {
                assert(payload@ =~= a@);
            }
            (ServerMsg::OpusAudio(id.duplicate(), payload), false)
        },
        ToClient::Roster(ds) => {
            let mut out: Vec<ClientDescription> = Vec::new();
            proof {
                lemma_deep_view_index(ds);
                assert(out.deep_view() =~= ds.deep_view().take(0));
            }
            let n = ds.len();
            let mut i: usize = 0;
            while i < n
                invariant
                    i <= n == ds@.len(),
                    out.deep_view() == ds.deep_view().take(i as int),
                    forall|k: int|
                        0 <= k < n ==> (#[trigger] ds.deep_view()[k]) == ds@[k].deep_view(),
                decreases n - i,
            {
                let ghost prev = out.deep_view();
                out.push(crate::relay::clone_desc(&ds[i]));
                proof {
                    lemma_deep_view_index(&out);
                    assert(out.deep_view() =~= prev.push(ds@[i as int].deep_view()));
                    assert(ds.deep_view().take(i + 1) =~= ds.deep_view().take(i as int).push(
                        ds.deep_view()[i as int],
                    ));
                }
                i = i + 1;
            }
            proof {
                assert(ds.deep_view().take(n as int) =~= ds.deep_view());
            }
            (ServerMsg::Clients(out), false)
        },
        ToClient::Shutdown => {
            (ServerMsg::Bye { reason: shutdown_reason() }, true)
        },
    }
}

/// The full message sequence a writer produces for a finished instruction
/// sequence.  The incremental writer behaves identically: `version_msg`
/// first, then `msg_for_instr` per received instruction until one asks to
/// close.
pub fn writer_script(instrs: &Vec<ToClient>) -> (r: Vec<ServerMsg>)
    ensures
        r.deep_view() == spec_writer_script(instrs.deep_view()),
{
    let mut out: Vec<ServerMsg> = Vec::new();
    out.push(version_msg());
    proof {
        lemma_deep_view_index(instrs);
        lemma_deep_view_index(&out);
        assert(out.deep_view() =~= seq![ServerMsgV::Version(PROTOCOL_VERSION)]);
        assert(instrs.deep_view().skip(0) =~= instrs.deep_view());
    }
    let n = instrs.len();
    let mut i: usize = 0;
    while i < n
        invariant
            i <= n == instrs@.len(),
            spec_writer_script(instrs.deep_view()) == out.deep_view() + spec_writer_tail(
                instrs.deep_view().skip(i as int),
            ),
            forall|k: int|
                0 <= k < n ==> (#[trigger] instrs.deep_view()[k]) == instrs@[k].deep_view(),
        decreases n - i,
    {
        let ghost tail = instrs.deep_view().skip(i as int);
        proof {
            assert(tail[0] == instrs.deep_view()[i as int]);
            assert(tail.skip(1) =~= instrs.deep_view().skip(i + 1));
        }
        let ghost prev = out.deep_view();
        let (m, close) = msg_for_instr(&instrs[i]);
        out.push(m);
        proof {
            lemma_deep_view_index(&out);
            assert(out.deep_view() =~= prev.push(spec_msg_for_instr(tail[0]).0));
            assert(prev + (seq![spec_msg_for_instr(tail[0]).0] + spec_writer_tail(tail.skip(1)))
                =~= prev.push(spec_msg_for_instr(tail[0]).0) + spec_writer_tail(tail.skip(1)));
            assert(prev + seq![spec_msg_for_instr(tail[0]).0] =~= prev.push(
                spec_msg_for_instr(tail[0]).0,
            ));
        }
        if close {
            return out;
        }
        i = i + 1;
    }
    proof {
        assert(instrs.deep_view().skip(n as int) =~= Seq::<ToClientV>::empty());
        assert(out.deep_view() + Seq::<ServerMsgV>::empty() =~= out.deep_view());
    }
    out
}

} // verus!
