//! The client-side audio relay engine.
//!
//! One worker exclusively owns the codec state of a session.  Two
//! producers — the local capture source and the network reader — feed it
//! one merged, ordered event queue; the worker never encodes a partial
//! frame: captured samples sit in a backlog until exactly `frame_size`
//! of them can be cut off the front.  Samples are carried as opaque
//! 32-bit patterns; the codec itself and the audio device live outside.

use vstd::prelude::*;

use crate::protocol::ClientDescription;
use crate::protocol::ClientDescriptionV;
use crate::protocol::lemma_deep_view_index;
use crate::protocol::ServerMsg;
use crate::protocol::ServerMsgV;

verus! {

/// The codec frame size of the network-facing session.
pub const OPUS_FRAME_SIZE: usize = 2880;

/// The codec frame size of the local loop-back session.
pub const EMU_FRAME_SIZE: usize = 960;

/// One session's lifecycle.
pub enum SessionPhase {
    /// The transport is not up yet.
    Connecting,
    /// Connected; the mandatory version notice has not arrived.
    AwaitingVersion,
    /// The steady relay state.
    Active,
    /// Terminal: entered on goodbye, peer-gone or local shutdown.
    Closed,
}

/// One event on the merged queue.
pub enum EngineEvent {
    /// A decoded message from the network reader.
    FromServer(ServerMsg),
    /// The network reader's terminal notice.
    ServerGone,
    /// A chunk of captured samples, of whatever size the source yields.
    MicChunk(Vec<u32>),
    /// The local shutdown signal.
    Shutdown,
}

/// Mathematical model of one event.
pub enum EngineEventV {
    FromServer(ServerMsgV),
    ServerGone,
    MicChunk(Seq<u32>),
    Shutdown,
}

impl View for EngineEvent {
    type V = EngineEventV;

    open spec fn view(&self) -> EngineEventV {
        match self {
            EngineEvent::FromServer(m) => EngineEventV::FromServer(m@),
            EngineEvent::ServerGone => EngineEventV::ServerGone,
            EngineEvent::MicChunk(c) => EngineEventV::MicChunk(c@),
            EngineEvent::Shutdown => EngineEventV::Shutdown,
        }
    }
}

impl DeepView for EngineEvent {
    type V = EngineEventV;

    open spec fn deep_view(&self) -> EngineEventV {
        self@
    }
}

/// What the worker asks the outside to do for one event.
pub enum EngineAction {
    /// Decode this packet and hand the samples to playback.
    PlayPacket(Vec<u8>),
    /// Hand the roster snapshot to whoever asked for it.
    DeliverRoster(Vec<ClientDescription>),
    /// Encode exactly this frame of samples and send it.
    SendFrame(Vec<u32>),
}

/// Mathematical model of one action.
pub enum EngineActionV {
    PlayPacket(Seq<u8>),
    DeliverRoster(Seq<ClientDescriptionV>),
    SendFrame(Seq<u32>),
}

impl View for EngineAction {
    type V = EngineActionV;

    open spec fn view(&self) -> EngineActionV {
        match self {
            EngineAction::PlayPacket(a) => EngineActionV::PlayPacket(a@),
            EngineAction::DeliverRoster(ds) => EngineActionV::DeliverRoster(ds.deep_view()),
            EngineAction::SendFrame(f) => EngineActionV::SendFrame(f@),
        }
    }
}

impl DeepView for EngineAction {
    type V = EngineActionV;

    open spec fn deep_view(&self) -> EngineActionV {
        self@
    }
}

/// Mathematical model of the engine.
pub struct EngineV {
    pub phase: SessionPhase,
    pub backlog: Seq<u32>,
    pub frame_size: nat,
}

impl EngineV {
    /// Steady state: a positive frame size and never a full frame left
    /// sitting in the backlog.
    pub open spec fn wf(self) -> bool {
        &&& self.frame_size >= 1
        &&& self.backlog.len() < self.frame_size
    }
}

/// The full frames at the front of `total`, in order.
pub open spec fn spec_frames(total: Seq<u32>, n: nat) -> Seq<Seq<u32>>
    decreases total.len(),
{
    if n == 0 || total.len() < n {
        Seq::empty()
    } else {
        seq![total.take(n as int)] + spec_frames(total.skip(n as int), n)
    }
}

/// What stays in the backlog once the full frames are cut off.
pub open spec fn spec_rest(total: Seq<u32>, n: nat) -> Seq<u32>
    decreases total.len(),
{
    if n == 0 || total.len() < n {
        total
    } else {
        spec_rest(total.skip(n as int), n)
    }
}

/// Cutting frames is exact: every frame holds exactly `n` samples, the
/// frames are consecutive spans of `total` from its front, and what is
/// left is shorter than one frame.
pub proof fn lemma_frames(total: Seq<u32>, n: nat)
    requires
        n >= 1,
    ensures
        spec_rest(total, n).len() < n,
        spec_frames(total, n).len() * n + spec_rest(total, n).len() == total.len(),
        forall|k: int|
            0 <= k < spec_frames(total, n).len() ==> {
                &&& (#[trigger] spec_frames(total, n)[k]).len() == n
                &&& spec_frames(total, n)[k] == total.subrange(k * n, k * n + n)
            },
        spec_rest(total, n) == total.skip(spec_frames(total, n).len() * n as int),
    decreases total.len(),
{
    let f = spec_frames(total, n);
    let r = spec_rest(total, n);
    if total.len() < n {
        assert(f.len() * n == 0) by (nonlinear_arith)
            requires
                f.len() == 0,
        ;
        assert(total.skip(0) =~= total);
    } else {
        let tail = total.skip(n as int);
        lemma_frames(tail, n);
        let f1 = spec_frames(tail, n);
        assert(f.len() * n == f1.len() * n + n) by (nonlinear_arith)
            requires
                f.len() == f1.len() + 1,
        ;
        assert forall|k: int| 0 <= k < f.len() implies {
            &&& (#[trigger] f[k]).len() == n
            &&& f[k] == total.subrange(k * n, k * n + n)
        } by {
            if k == 0 {
                assert(k * n == 0) by (nonlinear_arith)
                    requires
                        k == 0,
                ;
                assert(total.take(n as int) =~= total.subrange(0, n as int));
            } else {
                assert(f[k] == f1[k - 1]);
                assert(f1[k - 1] == tail.subrange((k - 1) * n, (k - 1) * n + n));
                assert(k * n == (k - 1) * n + n) by (nonlinear_arith);
                assert((k - 1) * n + n <= tail.len()) by (nonlinear_arith)
                    requires
                        0 <= k - 1 < f1.len(),
                        f1.len() * n + spec_rest(tail, n).len() == tail.len(),
                        n >= 1,
                ;
                assert(tail.subrange((k - 1) * n, (k - 1) * n + n) =~= total.subrange(
                    k * n,
                    k * n + n,
                ));
            }
        }
        assert(r == tail.skip(f1.len() * n as int));
        assert(tail.skip(f1.len() * n as int) =~= total.skip(f1.len() * n as int + n));
        assert(f.len() * n == f1.len() * n + n) by (nonlinear_arith)
            requires
                f.len() == f1.len() + 1,
        ;
    }
}

/// One send action per frame, in order.
pub open spec fn actions_of(frames: Seq<Seq<u32>>) -> Seq<EngineActionV> {
    frames.map_values(|f: Seq<u32>| EngineActionV::SendFrame(f))
}

/// The engine model after the session closes.
pub open spec fn spec_closed(e: EngineV) -> EngineV {
    EngineV { phase: SessionPhase::Closed, backlog: Seq::empty(), frame_size: e.frame_size }
}

/// The engine's whole behaviour, one event at a time: what the next state
/// is and which actions the outside must perform, in order.
pub open spec fn spec_step(e: EngineV, ev: EngineEventV) -> (EngineV, Seq<EngineActionV>) {
    if e.phase is Closed || e.phase is Connecting {
        (e, Seq::empty())
    } else {
        match ev {
            EngineEventV::FromServer(m) => match m {
                ServerMsgV::Version(_) => (
                    EngineV {
                        phase: SessionPhase::Active,
                        backlog: e.backlog,
                        frame_size: e.frame_size,
                    },
                    Seq::empty(),
                ),
                ServerMsgV::Clients(ds) => (e, seq![EngineActionV::DeliverRoster(ds)]),
                ServerMsgV::OpusAudio(_, a) => (e, seq![EngineActionV::PlayPacket(a)]),
                ServerMsgV::Bye { .. } => (spec_closed(e), Seq::empty()),
            },
            EngineEventV::ServerGone => (spec_closed(e), Seq::empty()),
            EngineEventV::Shutdown => (spec_closed(e), Seq::empty()),
            EngineEventV::MicChunk(c) => {
                let total = e.backlog + c;
                (
                    EngineV {
                        phase: e.phase,
                        backlog: spec_rest(total, e.frame_size),
                        frame_size: e.frame_size,
                    },
                    actions_of(spec_frames(total, e.frame_size)),
                )
            },
        }
    }
}

/// Whether an action respects the frame size: every frame handed to the
/// encoder holds exactly `n` samples.
pub open spec fn action_frame_ok(a: EngineActionV, n: nat) -> bool {
    match a {
        EngineActionV::SendFrame(f) => f.len() == n,
        _ => true,
    }
}

/// Frame-size invariant, one step: whatever event arrives in whatever
/// state, the engine never asks to encode fewer or more than exactly
/// `frame_size` samples, and it stays well-formed.
pub proof fn lemma_frame_size_invariant(e: EngineV, ev: EngineEventV)
    requires
        e.wf(),
    ensures
        spec_step(e, ev).0.wf(),
        spec_step(e, ev).0.frame_size == e.frame_size,
        forall|k: int|
            0 <= k < spec_step(e, ev).1.len() ==> action_frame_ok(
                #[trigger] spec_step(e, ev).1[k],
                e.frame_size,
            ),
{
    if e.phase is Closed || e.phase is Connecting {
    } else {
        match ev {
            EngineEventV::MicChunk(c) => {
                lemma_frames(e.backlog + c, e.frame_size);
            },
            _ => {},
        }
    }
}

/// A whole run: the state after a sequence of events, and every action
/// they cause, in order.
pub open spec fn spec_run(e: EngineV, evs: Seq<EngineEventV>) -> (EngineV, Seq<EngineActionV>)
    decreases evs.len(),
{
    if evs.len() == 0 {
        (e, Seq::empty())
    } else {
        let s = spec_step(e, evs[0]);
        let rest = spec_run(s.0, evs.skip(1));
        (rest.0, s.1 + rest.1)
    }
}

/// Frame-size invariant, any arrival pattern: over a whole run, every
/// frame the engine asks to encode holds exactly `frame_size` samples.
pub proof fn lemma_frame_size_run(e: EngineV, evs: Seq<EngineEventV>)
    requires
        e.wf(),
    ensures
        spec_run(e, evs).0.wf(),
        spec_run(e, evs).0.frame_size == e.frame_size,
        forall|k: int|
            0 <= k < spec_run(e, evs).1.len() ==> action_frame_ok(
                #[trigger] spec_run(e, evs).1[k],
                e.frame_size,
            ),
    decreases evs.len(),
{
    if evs.len() == 0 {
    } else {
        lemma_frame_size_invariant(e, evs[0]);
        let s = spec_step(e, evs[0]);
        lemma_frame_size_run(s.0, evs.skip(1));
        let rest = spec_run(s.0, evs.skip(1));
        assert(forall|k: int|
            0 <= k < s.1.len() ==> (s.1 + rest.1)[k] == (#[trigger] s.1[k]));
        assert(forall|k: int|
            s.1.len() <= k < s.1.len() + rest.1.len() ==> (s.1 + rest.1)[k] == (
            #[trigger] rest.1[k - s.1.len()]));
    }
}

/// Copies `v[a..c]` into a fresh vector.
pub fn copy_samples(v: &Vec<u32>, a: usize, c: usize) -> (r: Vec<u32>)
    requires
        a <= c <= v@.len(),
    ensures
        r@ == v@.subrange(a as int, c as int),
{
    let mut out: Vec<u32> = Vec::new();
    let mut i: usize = a;
    while i < c
        invariant
            a <= i <= c <= v@.len(),
            out@ == v@.subrange(a as int, i as int),
        decreases c - i,
    {
        out.push(v[i]);
        i = i + 1;
        proof {
            assert(out@ =~= v@.subrange(a as int, i as int));
        }
    }
    out
}

/// The single worker that owns one session's codec state.
pub struct RelayEngine {
    pub phase: SessionPhase,
    pub backlog: Vec<u32>,
    pub frame_size: usize,
}

impl View for RelayEngine {
    type V = EngineV;

    open spec fn view(&self) -> EngineV {
        EngineV { phase: self.phase, backlog: self.backlog@, frame_size: self.frame_size as nat }
    }
}

impl RelayEngine {
    pub open spec fn wf(&self) -> bool {
        self@.wf()
    }

    /// A new session, not yet connected.
    pub fn new(frame_size: usize) -> (r: Self)
        requires
            frame_size >= 1,
        ensures
            r@ == (EngineV {
                phase: SessionPhase::Connecting,
                backlog: Seq::<u32>::empty(),
                frame_size: frame_size as nat,
            }),
            r.wf(),
    {
        let r = RelayEngine { phase: SessionPhase::Connecting, backlog: Vec::new(), frame_size };
        proof {
            assert(r.backlog@ =~= Seq::<u32>::empty());
        }
        r
    }

    /// The transport is up; the mandatory version notice is now owed.
    pub fn connected(&mut self)
        requires
            old(self).wf(),
            old(self)@.phase is Connecting,
        ensures
            final(self)@ == (EngineV {
                phase: SessionPhase::AwaitingVersion,
                backlog: old(self)@.backlog,
                frame_size: old(self)@.frame_size,
            }),
            final(self).wf(),
    {
        self.phase = SessionPhase::AwaitingVersion;
    }

    /// Consumes one event of the merged queue and returns the actions the
    /// outside must perform, in order.
    pub fn step(&mut self, ev: EngineEvent) -> (r: Vec<EngineAction>)
        requires
            old(self).wf(),
        ensures
            final(self).wf(),
            (final(self)@, r.deep_view()) == spec_step(old(self)@, ev@),
    {
        proof {
            lemma_frame_size_invariant(old(self)@, ev@);
        }
        let done = match self.phase {
            SessionPhase::Closed => true,
            SessionPhase::Connecting => true,
            _ => false,
        };
        if done {
            let r: Vec<EngineAction> = Vec::new();
            proof {
                assert(r.deep_view() =~= Seq::<EngineActionV>::empty());
            }
            return r;
        }
        match ev {
            EngineEvent::FromServer(m) => match m {
                ServerMsg::Version(_) => {
                    self.phase = SessionPhase::Active;
                    let r: Vec<EngineAction> = Vec::new();
                    proof {
                        assert(r.deep_view() =~= Seq::<EngineActionV>::empty());
                    }
                    r
                },
                ServerMsg::Clients(ds) => {
                    let mut r: Vec<EngineAction> = Vec::new();
                    r.push(EngineAction::DeliverRoster(ds));
                    proof {
                        lemma_deep_view_index(&r);
                        assert(r.deep_view() =~= spec_step(old(self)@, ev@).1);
                    }
                    r
                },
                ServerMsg::OpusAudio(_, a) => {
                    let mut r: Vec<EngineAction> = Vec::new();
                    r.push(EngineAction::PlayPacket(a));
                    proof {
                        lemma_deep_view_index(&r);
                        assert(r.deep_view() =~= spec_step(old(self)@, ev@).1);
                    }
                    r
                },
                ServerMsg::Bye { reason: _ } => {
                    self.phase = SessionPhase::Closed;
                    self.backlog = Vec::new();
                    let r: Vec<EngineAction> = Vec::new();
                    proof {
                        assert(self.backlog@ =~= Seq::<u32>::empty());
                        assert(r.deep_view() =~= Seq::<EngineActionV>::empty());
                    }
                    r
                },
            },
            EngineEvent::ServerGone => {
                self.phase = SessionPhase::Closed;
                self.backlog = Vec::new();
                let r: Vec<EngineAction> = Vec::new();
                proof {
                    assert(self.backlog@ =~= Seq::<u32>::empty());
                    assert(r.deep_view() =~= Seq::<EngineActionV>::empty());
                }
                r
            },
            EngineEvent::Shutdown => {
                self.phase = SessionPhase::Closed;
                self.backlog = Vec::new();
                let r: Vec<EngineAction> = Vec::new();
                proof {
                    assert(self.backlog@ =~= Seq::<u32>::empty());
                    assert(r.deep_view() =~= Seq::<EngineActionV>::empty());
                }
                r
            },
            EngineEvent::MicChunk(mut c) => {
                let ghost total = self.backlog@ + c@;
                let ghost n = self.frame_size as nat;
                let ghost phase0 = self.phase;
                self.backlog.append(&mut c);
                proof {
                    lemma_frames(total, n);
                }
                let mut out: Vec<EngineAction> = Vec::new();
                let ghost mut frames_done: Seq<Seq<u32>> = Seq::empty();
                proof {
                    assert(out.deep_view() =~= Seq::<EngineActionV>::empty());
                    assert(actions_of(frames_done) =~= Seq::<EngineActionV>::empty());
                    assert(Seq::<Seq<u32>>::empty() + spec_frames(self.backlog@, n)
                        =~= spec_frames(self.backlog@, n));
                }
                while self.backlog.len() >= self.frame_size
                    invariant
                        self.frame_size >= 1,
                        self.frame_size as nat == n,
                        self.phase == phase0,
                        spec_frames(total, n) == frames_done + spec_frames(self.backlog@, n),
                        spec_rest(total, n) == spec_rest(self.backlog@, n),
                        out.deep_view() == actions_of(frames_done),
                    decreases self.backlog@.len(),
                {
                    let ghost cur = self.backlog@;
                    let frame = copy_samples(&self.backlog, 0, self.frame_size);
                    let rest = copy_samples(&self.backlog, self.frame_size, self.backlog.len());
                    proof {
                        assert(frame@ =~= cur.take(n as int));
                        assert(rest@ =~= cur.skip(n as int));
                    }
                    self.backlog = rest;
                    let ghost prev_dv = out.deep_view();
                    proof {
                        lemma_deep_view_index(&out);
                    }
                    out.push(EngineAction::SendFrame(frame));
                    proof {
                        let prev = frames_done;
                        frames_done = frames_done.push(frame@);
                        lemma_deep_view_index(&out);
                        assert(out.deep_view() =~= prev_dv.push(EngineActionV::SendFrame(frame@)));
                        assert(actions_of(frames_done) =~= prev_dv.push(
                            EngineActionV::SendFrame(frame@),
                        ));
                        assert(out.deep_view() =~= actions_of(frames_done));
                        assert(spec_frames(cur, n) == seq![cur.take(n as int)] + spec_frames(
                            self.backlog@,
                            n,
                        ));
                        assert(prev + (seq![frame@] + spec_frames(self.backlog@, n))
                            =~= frames_done + spec_frames(self.backlog@, n));
                    }
                }
                proof {
                    assert(spec_frames(self.backlog@, n) =~= Seq::<Seq<u32>>::empty());
                    assert(frames_done + Seq::<Seq<u32>>::empty() =~= frames_done);
                    assert(spec_rest(self.backlog@, n) == self.backlog@);
                    assert(out.deep_view() =~= spec_step(old(self)@, ev@).1);
                }
                out
            },
        }
    }

    /// Consumes a whole event sequence, returning every action in order.
    pub fn run_events(&mut self, evs: Vec<EngineEvent>) -> (r: Vec<EngineAction>)
        requires
            old(self).wf(),
        ensures
            final(self).wf(),
            (final(self)@, r.deep_view()) == spec_run(old(self)@, evs.deep_view()),
    {
        let mut evs = evs;
        let ghost e0 = self@;
        let ghost evs0 = evs.deep_view();
        let mut out: Vec<EngineAction> = Vec::new();
        proof {
            assert(out.deep_view() =~= Seq::<EngineActionV>::empty());
            assert(Seq::<EngineActionV>::empty() + spec_run(self@, evs.deep_view()).1
                =~= spec_run(self@, evs.deep_view()).1);
        }
        while evs.len() > 0
            invariant
                self.wf(),
                spec_run(e0, evs0).0 == spec_run(self@, evs.deep_view()).0,
                spec_run(e0, evs0).1 == out.deep_view() + spec_run(self@, evs.deep_view()).1,
            decreases evs@.len(),
        {
            proof {
                lemma_deep_view_index(&evs);
            }
            let ghost evs_v = evs.deep_view();
            let ev = evs.remove(0);
            proof {
                lemma_deep_view_index(&evs);
                assert(evs.deep_view() =~= evs_v.skip(1));
            }
            let ghost pre = self@;
            let mut acts = self.step(ev);
            let ghost acts_v = acts.deep_view();
            let ghost prev_out = out.deep_view();
            out.append(&mut acts);
            proof {
                lemma_deep_view_index(&out);
                assert(out.deep_view() =~= prev_out + acts_v);
                assert(spec_run(pre, evs_v).0 == spec_run(self@, evs.deep_view()).0);
                assert(spec_run(pre, evs_v).1 == acts_v + spec_run(self@, evs.deep_view()).1);
                assert(prev_out + (acts_v + spec_run(self@, evs.deep_view()).1) =~= (prev_out
                    + acts_v) + spec_run(self@, evs.deep_view()).1);
            }
        }
        proof {
            assert(evs.deep_view() =~= Seq::<EngineEventV>::empty());
            assert(out.deep_view() + Seq::<EngineActionV>::empty() =~= out.deep_view());
        }
        out
    }
}

/// The local loop-back session: the same engine, fed back to the speaker
/// without a network, with its own codec frame size.
pub struct ServEmu {}

impl ServEmu {
    pub fn new() -> (r: Self)
        ensures
            r == (ServEmu {  }),
    {
        ServEmu {  }
    }

    /// The worker a loop-back session runs, already connected: its frames
    /// are encoded, decoded and played back locally.
    pub fn engine(&self) -> (r: RelayEngine)
        ensures
            r@ == (EngineV {
                phase: SessionPhase::Active,
                backlog: Seq::<u32>::empty(),
                frame_size: EMU_FRAME_SIZE as nat,
            }),
            r.wf(),
    {
        let r = RelayEngine {
            phase: SessionPhase::Active,
            backlog: Vec::new(),
            frame_size: EMU_FRAME_SIZE,
        };
        proof {
            assert(r.backlog@ =~= Seq::<u32>::empty());
        }
        r
    }
}

} // verus!
