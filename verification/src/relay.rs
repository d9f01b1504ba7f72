//! The broadcast relay: the server-side actor that owns the client
//! registry and the fan-out policy.
//!
//! The registry is mutated only through the methods here, one event at a
//! time.  An audio packet from one client yields a delivery to every
//! *other* registered client; a delivery the surrounding program could
//! not hand over marks that peer dead, and `prune_failed` drops it.  The
//! actual channels and sockets live outside; this module decides who
//! receives what and who stays registered.

use vstd::prelude::*;

use crate::codec::copy_range;
use crate::protocol::ClientDescription;
use crate::protocol::ClientDescriptionV;
use crate::protocol::ClientMsg;
use crate::protocol::ClientMsgV;
use crate::protocol::lemma_deep_view_index;
use crate::protocol::ServerMsg;
use crate::protocol::ServerMsgV;
use crate::protocol::UuidWrapper;

verus! {

/// Whether some entry of `s` carries the identifier `id`.
pub open spec fn spec_contains_id(s: Seq<ClientDescriptionV>, id: Seq<u8>) -> bool {
    exists|i: int| 0 <= i < s.len() && (#[trigger] s[i]).uuid == id
}

/// A well-formed registry: every entry well-formed, identifiers distinct,
/// and few enough entries to fit a roster message.
pub open spec fn reg_wf_seq(s: Seq<ClientDescriptionV>) -> bool {
    &&& s.len() <= u32::MAX
    &&& forall|i: int| 0 <= i < s.len() ==> (#[trigger] s[i]).wf()
    &&& forall|i: int, j: int| 0 <= i < j < s.len() ==> (#[trigger] s[i]).uuid != (#[trigger] s[j]).uuid
}

/// The registry after every entry carrying `id` is removed.
pub open spec fn spec_remove(s: Seq<ClientDescriptionV>, id: Seq<u8>) -> Seq<ClientDescriptionV>
    decreases s.len(),
{
    if s.len() == 0 {
        Seq::empty()
    } else if s[0].uuid == id {
        spec_remove(s.skip(1), id)
    } else {
        seq![s[0]] + spec_remove(s.skip(1), id)
    }
}

/// The registry after all identifiers in `ids` are removed, in order.
pub open spec fn spec_remove_all(s: Seq<ClientDescriptionV>, ids: Seq<Seq<u8>>) -> Seq<
    ClientDescriptionV,
>
    decreases ids.len(),
{
    if ids.len() == 0 {
        s
    } else {
        spec_remove_all(spec_remove(s, ids[0]), ids.skip(1))
    }
}

/// The registry with the entry carrying `id` renamed to `n`.
pub open spec fn spec_set_nick(
    s: Seq<ClientDescriptionV>,
    id: Seq<u8>,
    n: Seq<u8>,
) -> Seq<ClientDescriptionV> {
    s.map_values(
        |d: ClientDescriptionV|
            if d.uuid == id {
                ClientDescriptionV { nickname: Option::Some(n), uuid: d.uuid }
            } else {
                d
            },
    )
}

/// Mathematical model of one outbound delivery.
pub struct DeliveryV {
    pub to: Seq<u8>,
    pub msg: ServerMsgV,
}

/// One outbound delivery the relay asks for: a message for one peer.
pub struct Delivery {
    pub to: UuidWrapper,
    pub msg: ServerMsg,
}

impl View for Delivery {
    type V = DeliveryV;

    open spec fn view(&self) -> DeliveryV {
        DeliveryV { to: self.to@, msg: self.msg@ }
    }
}

impl DeepView for Delivery {
    type V = DeliveryV;

    open spec fn deep_view(&self) -> DeliveryV {
        self@
    }
}

/// The fan-out of one audio packet: one delivery per registered entry
/// whose identifier differs from the sender's, in registry order, each
/// carrying the packet tagged with the sender.
pub open spec fn spec_fanout(
    s: Seq<ClientDescriptionV>,
    sender: Seq<u8>,
    audio: Seq<u8>,
) -> Seq<DeliveryV>
    decreases s.len(),
{
    if s.len() == 0 {
        Seq::empty()
    } else if s[0].uuid == sender {
        spec_fanout(s.skip(1), sender, audio)
    } else {
        seq![DeliveryV { to: s[0].uuid, msg: ServerMsgV::OpusAudio(sender, audio) }]
            + spec_fanout(s.skip(1), sender, audio)
    }
}

/// Removal hits exactly the given identifier: afterwards `x` is present
/// exactly when it was present and is not the removed one.
pub proof fn lemma_remove_contains(s: Seq<ClientDescriptionV>, id: Seq<u8>, x: Seq<u8>)
    ensures
        spec_contains_id(spec_remove(s, id), x) == (spec_contains_id(s, x) && x != id),
    decreases s.len(),
{
    if s.len() == 0 {
    } else {
        lemma_remove_contains(s.skip(1), id, x);
        assert(spec_contains_id(s.skip(1), x) ==> spec_contains_id(s, x));
        if s[0].uuid == id {
            if spec_contains_id(s, x) && x != id {
                let i = choose|i: int| 0 <= i < s.len() && s[i].uuid == x;
                assert(i != 0);
                assert(s.skip(1)[i - 1] == s[i]);
                assert(spec_contains_id(s.skip(1), x));
            }
        } else {
            let r = spec_remove(s, id);
            let r1 = spec_remove(s.skip(1), id);
            assert(r == seq![s[0]] + r1);
            if spec_contains_id(r, x) {
                let k = choose|k: int| 0 <= k < r.len() && r[k].uuid == x;
                if k == 0 {
                    assert(s[0].uuid == x);
                } else {
                    assert(r[k] == r1[k - 1]);
                    assert(spec_contains_id(r1, x));
                }
            }
            if spec_contains_id(s, x) && x != id {
                let i = choose|i: int| 0 <= i < s.len() && s[i].uuid == x;
                if i == 0 {
                    assert(r[0] == s[0]);
                    assert(spec_contains_id(r, x));
                } else {
                    assert(s.skip(1)[i - 1] == s[i]);
                    assert(spec_contains_id(s.skip(1), x));
                    let k = choose|k: int| 0 <= k < r1.len() && r1[k].uuid == x;
                    assert(r[k + 1] == r1[k]);
                    assert(spec_contains_id(r, x));
                }
            }
        }
    }
}

/// Removal keeps the registry well-formed and never grows it.
pub proof fn lemma_remove_wf(s: Seq<ClientDescriptionV>, id: Seq<u8>)
    requires
        reg_wf_seq(s),
    ensures
        reg_wf_seq(spec_remove(s, id)),
        spec_remove(s, id).len() <= s.len(),
    decreases s.len(),
{
    if s.len() == 0 {
    } else {
        assert(forall|i: int|
            0 <= i < s.skip(1).len() ==> (#[trigger] s.skip(1)[i]) == s[i + 1]);
        lemma_remove_wf(s.skip(1), id);
        if s[0].uuid == id {
        } else {
            let r1 = spec_remove(s.skip(1), id);
            let r = seq![s[0]] + r1;
            assert(!spec_contains_id(s.skip(1), s[0].uuid)) by {
                if spec_contains_id(s.skip(1), s[0].uuid) {
                    let i = choose|i: int|
                        0 <= i < s.skip(1).len() && s.skip(1)[i].uuid == s[0].uuid;
                    assert(s[i + 1].uuid == s[0].uuid);
                }
            }
            lemma_remove_contains(s.skip(1), id, s[0].uuid);
            assert(forall|k: int, j: int|
                0 <= k < j < r.len() && k >= 1 ==> (#[trigger] r[k]).uuid != (
                #[trigger] r[j]).uuid);
            assert(forall|j: int| 1 <= j < r.len() ==> r[0].uuid != (#[trigger] r[j]).uuid) by {
                assert(forall|j: int|
                    1 <= j < r.len() ==> spec_contains_id(r1, (#[trigger] r[j]).uuid));
            }
        }
    }
}

/// Pruning hits exactly the failed identifiers.
pub proof fn lemma_remove_all_contains(s: Seq<ClientDescriptionV>, ids: Seq<Seq<u8>>, x: Seq<u8>)
    ensures
        spec_contains_id(spec_remove_all(s, ids), x) == (spec_contains_id(s, x)
            && !ids.contains(x)),
    decreases ids.len(),
{
    if ids.len() == 0 {
    } else {
        lemma_remove_contains(s, ids[0], x);
        lemma_remove_all_contains(spec_remove(s, ids[0]), ids.skip(1), x);
        assert(ids.contains(x) == (x == ids[0] || ids.skip(1).contains(x))) by {
            if ids.contains(x) {
                let i = choose|i: int| 0 <= i < ids.len() && ids[i] == x;
                if i != 0 {
                    assert(ids.skip(1)[i - 1] == x);
                }
            }
            if ids.skip(1).contains(x) {
                let i = choose|i: int| 0 <= i < ids.skip(1).len() && ids.skip(1)[i] == x;
                assert(ids[i + 1] == x);
            }
        }
    }
}

/// Fan-out exclusion: every delivery of a fan-out goes to a registered
/// identifier other than the sender and carries the packet tagged with
/// the sender; and every registered identifier other than the sender
/// receives one.
pub proof fn lemma_fanout_exclusion(s: Seq<ClientDescriptionV>, sender: Seq<u8>, audio: Seq<u8>)
    ensures
        forall|k: int|
            0 <= k < spec_fanout(s, sender, audio).len() ==> {
                &&& (#[trigger] spec_fanout(s, sender, audio)[k]).to != sender
                &&& spec_fanout(s, sender, audio)[k].msg == ServerMsgV::OpusAudio(sender, audio)
                &&& spec_contains_id(s, spec_fanout(s, sender, audio)[k].to)
            },
        forall|i: int|
            0 <= i < s.len() && (#[trigger] s[i]).uuid != sender ==> exists|k: int|
                0 <= k < spec_fanout(s, sender, audio).len() && (#[trigger] spec_fanout(
                    s,
                    sender,
                    audio,
                )[k]).to == s[i].uuid,
    decreases s.len(),
{
    if s.len() == 0 {
    } else {
        lemma_fanout_exclusion(s.skip(1), sender, audio);
        let f = spec_fanout(s, sender, audio);
        let f1 = spec_fanout(s.skip(1), sender, audio);
        assert(forall|i: int|
            0 <= i < s.skip(1).len() ==> (#[trigger] s.skip(1)[i]) == s[i + 1]);
        assert(forall|x: Seq<u8>|
            spec_contains_id(s.skip(1), x) ==> #[trigger] spec_contains_id(s, x)) by {
            assert(forall|x: Seq<u8>| #[trigger]
                spec_contains_id(s.skip(1), x) ==> exists|i: int|
                    0 <= i < s.len() && (#[trigger] s[i]).uuid == x);
        }
        if s[0].uuid == sender {
            assert(f == f1);
            assert forall|i: int|
                0 <= i < s.len() && (#[trigger] s[i]).uuid != sender implies exists|k: int|
                0 <= k < f.len() && (#[trigger] f[k]).to == s[i].uuid by {
                assert(i >= 1);
                assert(s.skip(1)[i - 1] == s[i]);
                assert(exists|k: int|
                    0 <= k < f1.len() && (#[trigger] f1[k]).to == s.skip(1)[i - 1].uuid);
                let k1 = choose|k: int| 0 <= k < f1.len() && (#[trigger] f1[k]).to == s[i].uuid;
                assert(f[k1].to == s[i].uuid);
            }
        } else {
            assert(f == seq![
                DeliveryV { to: s[0].uuid, msg: ServerMsgV::OpusAudio(sender, audio) },
            ] + f1);
            assert(forall|k: int| 1 <= k < f.len() ==> f[k] == (#[trigger] f1[k - 1]));
            assert(spec_contains_id(s, s[0].uuid));
            assert(forall|i: int|
                0 <= i < s.len() && (#[trigger] s[i]).uuid != sender ==> exists|k: int|
                    0 <= k < f.len() && (#[trigger] f[k]).to == s[i].uuid) by {
                assert(f[0].to == s[0].uuid);
                assert(forall|i: int|
                    1 <= i < s.len() && (#[trigger] s[i]).uuid != sender ==> exists|k: int|
                        0 <= k < f1.len() && (#[trigger] f1[k]).to == s.skip(1)[i - 1].uuid);
                assert forall|i: int|
                    1 <= i < s.len() && (#[trigger] s[i]).uuid != sender implies exists|k: int|
                    0 <= k < f.len() && (#[trigger] f[k]).to == s[i].uuid by {
                    let k1 = choose|k: int|
                        0 <= k < f1.len() && (#[trigger] f1[k]).to == s[i].uuid;
                    assert(f[k1 + 1].to == s[i].uuid);
                }
            }
        }
    }
}

/// Dead-peer pruning: after the failed identifiers are removed, no later
/// fan-out delivers to any of them.
pub proof fn lemma_dead_peer_pruning(
    s: Seq<ClientDescriptionV>,
    failed: Seq<Seq<u8>>,
    sender: Seq<u8>,
    audio: Seq<u8>,
)
    ensures
        forall|k: int|
            0 <= k < spec_fanout(spec_remove_all(s, failed), sender, audio).len()
                ==> !failed.contains(
                (#[trigger] spec_fanout(spec_remove_all(s, failed), sender, audio)[k]).to,
            ),
{
    let r = spec_remove_all(s, failed);
    lemma_fanout_exclusion(r, sender, audio);
    assert forall|k: int|
        0 <= k < spec_fanout(r, sender, audio).len() implies !failed.contains(
        (#[trigger] spec_fanout(r, sender, audio)[k]).to,
    ) by {
        lemma_remove_all_contains(s, failed, spec_fanout(r, sender, audio)[k].to);
    }
}

/// Copies one roster entry.
pub fn clone_desc(d: &ClientDescription) -> (r: ClientDescription)
    ensures
        r@ == d@,
{
    let nickname = match &d.nickname {
        Option::None => Option::None,
        Option::Some(n) => Option::Some(copy_range(n, 0, n.len())),
    };
    proof {
        match &d.nickname {
            Option::None => {},
            Option::Some(n) => {
                assert(n@.subrange(0, n@.len() as int) =~= n@);
            },
        }
    }
    ClientDescription { nickname, uuid: d.uuid.duplicate() }
}

/// The authoritative registry of connected clients, owned by the relay.
pub struct Registry {
    pub entries: Vec<ClientDescription>,
}

impl View for Registry {
    type V = Seq<ClientDescriptionV>;

    open spec fn view(&self) -> Seq<ClientDescriptionV> {
        self.entries.deep_view()
    }
}

impl Registry {
    pub open spec fn wf(&self) -> bool {
        reg_wf_seq(self@)
    }

    pub fn new() -> (r: Self)
        ensures
            r@ == Seq::<ClientDescriptionV>::empty(),
            r.wf(),
    {
        let r = Registry { entries: Vec::new() };
        proof {
            assert(r@ =~= Seq::<ClientDescriptionV>::empty());
        }
        r
    }

    pub fn len(&self) -> (r: usize)
        ensures
            r == self@.len(),
    {
        proof {
            lemma_deep_view_index(&self.entries);
        }
        self.entries.len()
    }

    pub fn contains_id(&self, id: &UuidWrapper) -> (r: bool)
        ensures
            r == spec_contains_id(self@, id@),
    {
        proof {
            lemma_deep_view_index(&self.entries);
        }
        let n = self.entries.len();
        let mut i: usize = 0;
        while i < n
            invariant
                i <= n == self.entries@.len(),
                forall|j: int| 0 <= j < i ==> (#[trigger] self@[j]).uuid != id@,
                self@.len() == n,
                forall|k: int|
                    0 <= k < n ==> (#[trigger] self@[k]) == self.entries@[k].deep_view(),
            decreases n - i,
        {
            if self.entries[i].uuid.same_as(id) {
                proof {
                    assert(self@[i as int].uuid == id@);
                }
                return true;
            }
            i = i + 1;
        }
        false
    }

    /// Registers a client: any stale entry under the same identifier goes,
    /// and a fresh entry with no nickname is appended.
    pub fn register(&mut self, id: &UuidWrapper)
        requires
            old(self).wf(),
            id.wf(),
            old(self)@.len() < u32::MAX,
        ensures
            final(self)@ == spec_remove(old(self)@, id@).push(
                ClientDescriptionV { nickname: Option::None, uuid: id@ },
            ),
            final(self).wf(),
    {
        self.remove_id(id);
        proof {
            lemma_remove_wf(old(self)@, id@);
            lemma_deep_view_index(&self.entries);
        }
        let ghost mid = self@;
        self.entries.push(ClientDescription { nickname: Option::None, uuid: id.duplicate() });
        proof {
            lemma_deep_view_index(&self.entries);
            assert(self@ =~= mid.push(ClientDescriptionV { nickname: Option::None, uuid: id@ }));
            lemma_remove_contains(old(self)@, id@, id@);
            assert(forall|j: int| 0 <= j < mid.len() ==> (#[trigger] mid[j]).uuid != id@) by {
                assert(forall|j: int|
                    0 <= j < mid.len() ==> spec_contains_id(mid, (#[trigger] mid[j]).uuid));
            }
        }
    }

    /// Removes the entry for `id`; nothing changes when none is present.
    pub fn remove_id(&mut self, id: &UuidWrapper)
        requires
            old(self).wf(),
        ensures
            final(self)@ == spec_remove(old(self)@, id@),
            final(self).wf(),
            final(self)@.len() <= old(self)@.len(),
    {
        proof {
            lemma_deep_view_index(&self.entries);
        }
        let mut kept: Vec<ClientDescription> = Vec::new();
        proof {
            assert(kept.deep_view() =~= Seq::<ClientDescriptionV>::empty());
            assert(self.entries.deep_view().skip(0) =~= self.entries.deep_view());
            assert(Seq::<ClientDescriptionV>::empty() + spec_remove(
                self.entries.deep_view(),
                id@,
            ) =~= spec_remove(self.entries.deep_view(), id@));
        }
        let n = self.entries.len();
        let mut i: usize = 0;
        while i < n
            invariant
                i <= n == self.entries@.len(),
                forall|k: int|
                    0 <= k < n ==> (#[trigger] self.entries.deep_view()[k])
                        == self.entries@[k].deep_view(),
                spec_remove(self.entries.deep_view(), id@) == kept.deep_view() + spec_remove(
                    self.entries.deep_view().skip(i as int),
                    id@,
                ),
            decreases n - i,
        {
            let ghost tail = self.entries.deep_view().skip(i as int);
            proof {
                assert(tail[0] == self.entries.deep_view()[i as int]);
                assert(tail.skip(1) =~= self.entries.deep_view().skip(i + 1));
            }
            if self.entries[i].uuid.same_as(id) {
                i = i + 1;
            } else {
                let ghost prev = kept.deep_view();
                kept.push(clone_desc(&self.entries[i]));
                proof {
                    lemma_deep_view_index(&kept);
                    assert(kept.deep_view() =~= prev.push(self.entries@[i as int].deep_view()));
                    assert(prev + (seq![tail[0]] + spec_remove(tail.skip(1), id@)) =~= prev.push(
                        tail[0],
                    ) + spec_remove(tail.skip(1), id@));
                }
                i = i + 1;
            }
        }
        proof {
            assert(self.entries.deep_view().skip(n as int)
                =~= Seq::<ClientDescriptionV>::empty());
            assert(kept.deep_view() + Seq::<ClientDescriptionV>::empty() =~= kept.deep_view());
            lemma_remove_wf(old(self)@, id@);
        }
        self.entries = kept;
    }

    /// Updates one client's display name.  A nickname for an identifier
    /// that is not registered is a programming-contract violation: every
    /// message is produced alongside a live registration.
    pub fn set_nickname(&mut self, id: &UuidWrapper, nickname: Vec<u8>)
        requires
            old(self).wf(),
            spec_contains_id(old(self)@, id@),
            nickname@.len() <= u32::MAX,
        ensures
            final(self)@ == spec_set_nick(old(self)@, id@, nickname@),
            final(self).wf(),
    {
        proof {
            lemma_deep_view_index(&self.entries);
        }
        let n = self.entries.len();
        let mut i: usize = 0;
        while i < n
            invariant
                i <= n == self.entries@.len(),
                self.entries@ == old(self).entries@,
                old(self).wf(),
                spec_contains_id(old(self)@, id@),
                nickname@.len() <= u32::MAX,
                forall|j: int| 0 <= j < i ==> (#[trigger] old(self)@[j]).uuid != id@,
                forall|k: int|
                    0 <= k < n ==> (#[trigger] old(self)@[k]) == old(self).entries@[k].deep_view(),
            decreases n - i,
        {
            if self.entries[i].uuid.same_as(id) {
                let uuid = self.entries[i].uuid.duplicate();
                let entry = ClientDescription { nickname: Option::Some(nickname), uuid };
                self.entries[i] = entry;
                proof {
                    lemma_deep_view_index(&self.entries);
                    assert(old(self)@[i as int].uuid == id@);
                    assert forall|j: int|
                        0 <= j < old(self)@.len() && j != i as int implies (
                    #[trigger] old(self)@[j]).uuid != id@ by {
                        if (i as int) < j {
                            assert(old(self)@[i as int].uuid != old(self)@[j].uuid);
                        }
                    }
                    assert(self@ =~= spec_set_nick(old(self)@, id@, nickname@));
                }
                return ;
            }
            i = i + 1;
        }
        proof {
            let w = choose|j: int| 0 <= j < old(self)@.len() && old(self)@[j].uuid == id@;
            assert(false);
        }
    }

    /// The current roster, as sent in a `Clients` message.
    pub fn roster(&self) -> (r: Vec<ClientDescription>)
        ensures
            r.deep_view() == self@,
    {
        proof {
            lemma_deep_view_index(&self.entries);
        }
        let n = self.entries.len();
        let mut out: Vec<ClientDescription> = Vec::new();
        proof {
            assert(out.deep_view() =~= self@.take(0));
        }
        let mut i: usize = 0;
        while i < n
            invariant
                i <= n == self.entries@.len(),
                out.deep_view() == self.entries.deep_view().take(i as int),
                forall|k: int|
                    0 <= k < n ==> (#[trigger] self.entries.deep_view()[k])
                        == self.entries@[k].deep_view(),
            decreases n - i,
        {
            let ghost prev = out.deep_view();
            out.push(clone_desc(&self.entries[i]));
            proof {
                lemma_deep_view_index(&out);
                assert(out.deep_view() =~= prev.push(self.entries@[i as int].deep_view()));
                assert(self.entries.deep_view().take(i + 1)
                    =~= self.entries.deep_view().take(i as int).push(
                    self.entries.deep_view()[i as int],
                ));
            }
            i = i + 1;
        }
        proof {
            assert(self.entries.deep_view().take(n as int) =~= self.entries.deep_view());
        }
        out
    }

    /// Builds the fan-out of one audio packet: a delivery for every other
    /// registered client, in registry order, tagged with the sender.
    pub fn fanout_audio(&self, sender: &UuidWrapper, audio: &Vec<u8>) -> (r: Vec<Delivery>)
        ensures
            r.deep_view() == spec_fanout(self@, sender@, audio@),
    {
        proof {
            lemma_deep_view_index(&self.entries);
        }
        let n = self.entries.len();
        let mut out: Vec<Delivery> = Vec::new();
        proof {
            assert(out.deep_view() =~= Seq::<DeliveryV>::empty());
            assert(self.entries.deep_view().skip(0) =~= self.entries.deep_view());
            assert(Seq::<DeliveryV>::empty() + spec_fanout(
                self.entries.deep_view(),
                sender@,
                audio@,
            ) =~= spec_fanout(self.entries.deep_view(), sender@, audio@));
        }
        let mut i: usize = 0;
        while i < n
            invariant
                i <= n == self.entries@.len(),
                spec_fanout(self.entries.deep_view(), sender@, audio@) == out.deep_view()
                    + spec_fanout(self.entries.deep_view().skip(i as int), sender@, audio@),
                forall|k: int|
                    0 <= k < n ==> (#[trigger] self.entries.deep_view()[k])
                        == self.entries@[k].deep_view(),
            decreases n - i,
        {
            let ghost tail = self.entries.deep_view().skip(i as int);
            proof {
                assert(tail[0] == self.entries.deep_view()[i as int]);
                assert(tail.skip(1) =~= self.entries.deep_view().skip(i + 1));
            }
            if self.entries[i].uuid.same_as(sender) {
                i = i + 1;
            } else {
                let ghost prev = out.deep_view();
                let d = Delivery {
                    to: self.entries[i].uuid.duplicate(),
                    msg: ServerMsg::OpusAudio(sender.duplicate(), copy_range(audio, 0, audio.len())),
                };
                proof {
                    assert(audio@.subrange(0, audio@.len() as int) =~= audio@);
                }
                out.push(d);
                proof {
                    lemma_deep_view_index(&out);
                    assert(out.deep_view() =~= prev.push(
                        DeliveryV { to: tail[0].uuid, msg: ServerMsgV::OpusAudio(sender@, audio@) },
                    ));
                    assert(prev + (seq![
                        DeliveryV { to: tail[0].uuid, msg: ServerMsgV::OpusAudio(sender@, audio@) },
                    ] + spec_fanout(tail.skip(1), sender@, audio@)) =~= prev.push(
                        DeliveryV { to: tail[0].uuid, msg: ServerMsgV::OpusAudio(sender@, audio@) },
                    ) + spec_fanout(tail.skip(1), sender@, audio@));
                }
                i = i + 1;
            }
        }
        proof {
            assert(self.entries.deep_view().skip(n as int)
                =~= Seq::<ClientDescriptionV>::empty());
            assert(out.deep_view() + Seq::<DeliveryV>::empty() =~= out.deep_view());
        }
        out
    }

    /// Drops every peer whose delivery failed: a failed send is the
    /// relay's sole signal that a peer is unreachable.
    pub fn prune_failed(&mut self, failed: &Vec<UuidWrapper>)
        requires
            old(self).wf(),
        ensures
            final(self)@ == spec_remove_all(old(self)@, failed.deep_view()),
            final(self).wf(),
    {
        proof {
            lemma_deep_view_index(failed);
            assert(failed.deep_view().skip(0) =~= failed.deep_view());
        }
        let n = failed.len();
        let mut i: usize = 0;
        while i < n
            invariant
                i <= n == failed@.len(),
                self.wf(),
                spec_remove_all(old(self)@, failed.deep_view()) == spec_remove_all(
                    self@,
                    failed.deep_view().skip(i as int),
                ),
                forall|k: int|
                    0 <= k < n ==> (#[trigger] failed.deep_view()[k]) == failed@[k].deep_view(),
            decreases n - i,
        {
            let ghost tail = failed.deep_view().skip(i as int);
            proof {
                assert(tail[0] == failed.deep_view()[i as int]);
                assert(tail.skip(1) =~= failed.deep_view().skip(i + 1));
            }
            self.remove_id(&failed[i]);
            i = i + 1;
        }
        proof {
            assert(failed.deep_view().skip(n as int) =~= Seq::<Seq<u8>>::empty());
        }
    }

    /// Handles one packet from a registered client, returning the
    /// deliveries the surrounding program must attempt.
    ///
    /// A roster request is answered with a snapshot of the current
    /// registry, sent back to the requesting client — the one concrete
    /// behaviour chosen for the request/response pair the protocol
    /// defines.
    pub fn handle_packet(&mut self, sender: &UuidWrapper, msg: ClientMsg) -> (r: Vec<Delivery>)
        requires
            old(self).wf(),
            sender.wf(),
            msg@ is Nickname ==> spec_contains_id(old(self)@, sender@),
            msg@.wf(),
        ensures
            final(self).wf(),
            forall|k: int|
                0 <= k < r.deep_view().len() ==> (#[trigger] r.deep_view()[k]).msg.wf(),
            match msg@ {
                ClientMsgV::GetClients => {
                    &&& final(self)@ == old(self)@
                    &&& r.deep_view() == seq![
                        DeliveryV { to: sender@, msg: ServerMsgV::Clients(old(self)@) },
                    ]
                },
                ClientMsgV::Nickname(n) => {
                    &&& final(self)@ == spec_set_nick(old(self)@, sender@, n)
                    &&& r.deep_view() == Seq::<DeliveryV>::empty()
                },
                ClientMsgV::OpusAudio(a) => {
                    &&& final(self)@ == old(self)@
                    &&& r.deep_view() == spec_fanout(old(self)@, sender@, a)
                },
                ClientMsgV::Leave => {
                    &&& final(self)@ == spec_remove(old(self)@, sender@)
                    &&& r.deep_view() == Seq::<DeliveryV>::empty()
                },
            },
    {
        match msg {
            ClientMsg::GetClients => {
                let roster = self.roster();
                let d = Delivery { to: sender.duplicate(), msg: ServerMsg::Clients(roster) };
                let mut out: Vec<Delivery> = Vec::new();
                out.push(d);
                proof {
                    lemma_deep_view_index(&out);
                    assert(out.deep_view() =~= seq![
                        DeliveryV { to: sender@, msg: ServerMsgV::Clients(old(self)@) },
                    ]);
                }
                out
            },
            ClientMsg::Nickname(n) => {
                self.set_nickname(sender, n);
                let out: Vec<Delivery> = Vec::new();
                proof {
                    assert(out.deep_view() =~= Seq::<DeliveryV>::empty());
                }
                out
            },
            ClientMsg::OpusAudio(a) => {
                let out = self.fanout_audio(sender, &a);
                proof {
                    lemma_fanout_exclusion(self@, sender@, a@);
                }
                out
            },
            ClientMsg::Leave => {
                self.remove_id(sender);
                let out: Vec<Delivery> = Vec::new();
                proof {
                    assert(out.deep_view() =~= Seq::<DeliveryV>::empty());
                }
                out
            },
        }
    }
}

} // verus!
