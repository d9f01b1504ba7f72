//! Message taxonomy of the voice-relay wire protocol.
//!
//! Every message travels as a length-prefixed frame whose payload is the
//! schema encoding defined in `codec`.  Nickname and reason text travel as
//! UTF-8 bytes; turning them into `String`s is the surrounding program's
//! business, the relay logic never looks inside them.

use vstd::prelude::*;

verus! {

/// A 16-byte client identifier as carried on the wire.
pub struct UuidWrapper {
    pub bytes: Vec<u8>,
}

impl View for UuidWrapper {
    type V = Seq<u8>;

    open spec fn view(&self) -> Seq<u8> {
        self.bytes@
    }
}

impl DeepView for UuidWrapper {
    type V = Seq<u8>;

    open spec fn deep_view(&self) -> Seq<u8> {
        self@
    }
}

/// Relies on `uuid::Uuid::new_v4` and `uuid::Uuid::as_bytes`: a freshly
/// generated version-4 UUID is exactly 16 bytes long.  Nothing is assumed
/// about its value, which is random.
#[verifier::external_body]
fn fresh_uuid_bytes() -> (r: Vec<u8>)
    ensures
        r@.len() == 16,
{
    uuid::Uuid::new_v4().as_bytes().to_vec()
}

impl UuidWrapper {
    /// A valid identifier holds exactly 16 bytes.
    pub open spec fn wf(&self) -> bool {
        self@.len() == 16
    }

    pub fn from_bytes(bytes: Vec<u8>) -> (r: Self)
        requires
            bytes@.len() == 16,
        ensures
            r@ == bytes@,
            r.wf(),
    {
        UuidWrapper { bytes }
    }

    pub fn bytes(&self) -> (r: &Vec<u8>)
        ensures
            r@ == self@,
    {
        &self.bytes
    }

    /// A fresh random identifier, as the server assigns at accept time.
    pub fn fresh() -> (r: Self)
        ensures
            r.wf(),
    {
        UuidWrapper { bytes: fresh_uuid_bytes() }
    }

    pub fn duplicate(&self) -> (r: Self)
        ensures
            r@ == self@,
    {
        let bytes = self.bytes.clone();
        proof {
            assert(bytes@ =~= self.bytes@);
        }
        UuidWrapper { bytes }
    }

    pub fn same_as(&self, other: &Self) -> (r: bool)
        ensures
            r == (self@ == other@),
    {
        let r = self.bytes == other.bytes;
        proof {
            if self.bytes@ =~= other.bytes@ {
                assert(self.bytes@ == other.bytes@);
            }
        }
        r
    }
}

/// Mathematical model of a client-to-server message.
pub enum ClientMsgV {
    GetClients,
    Nickname(Seq<u8>),
    OpusAudio(Seq<u8>),
    Leave,
}

/// A client-to-server message.
pub enum ClientMsg {
    /// Ask for the current roster of connected peers.
    GetClients,
    /// Associate a display name (UTF-8 bytes) with the sending connection.
    Nickname(Vec<u8>),
    /// One codec-encoded audio frame.
    OpusAudio(Vec<u8>),
    /// Voluntary disconnect notice.
    Leave,
}

impl View for ClientMsg {
    type V = ClientMsgV;

    open spec fn view(&self) -> ClientMsgV {
        match self {
            ClientMsg::GetClients => ClientMsgV::GetClients,
            ClientMsg::Nickname(n) => ClientMsgV::Nickname(n@),
            ClientMsg::OpusAudio(a) => ClientMsgV::OpusAudio(a@),
            ClientMsg::Leave => ClientMsgV::Leave,
        }
    }
}

impl DeepView for ClientMsg {
    type V = ClientMsgV;

    open spec fn deep_view(&self) -> ClientMsgV {
        self@
    }
}

impl ClientMsgV {
    /// Encodable messages: every variable-length field fits its length field.
    pub open spec fn wf(self) -> bool {
        match self {
            ClientMsgV::GetClients => true,
            ClientMsgV::Nickname(n) => n.len() <= u32::MAX,
            ClientMsgV::OpusAudio(a) => a.len() <= u32::MAX,
            ClientMsgV::Leave => true,
        }
    }
}

/// Mathematical model of one roster entry.
pub struct ClientDescriptionV {
    pub nickname: Option<Seq<u8>>,
    pub uuid: Seq<u8>,
}

/// One roster entry: an optional display name and the peer's identifier.
pub struct ClientDescription {
    pub nickname: Option<Vec<u8>>,
    pub uuid: UuidWrapper,
}

impl View for ClientDescription {
    type V = ClientDescriptionV;

    open spec fn view(&self) -> ClientDescriptionV {
        ClientDescriptionV {
            nickname: match self.nickname {
                Option::None => Option::None,
                Option::Some(n) => Option::Some(n@),
            },
            uuid: self.uuid@,
        }
    }
}

impl DeepView for ClientDescription {
    type V = ClientDescriptionV;

    open spec fn deep_view(&self) -> ClientDescriptionV {
        self@
    }
}

impl ClientDescriptionV {
    pub open spec fn wf(self) -> bool {
        &&& self.uuid.len() == 16
        &&& match self.nickname {
            Option::None => true,
            Option::Some(n) => n.len() <= u32::MAX,
        }
    }
}

/// Mathematical model of a server-to-client message.
pub enum ServerMsgV {
    Version(u64),
    Clients(Seq<ClientDescriptionV>),
    OpusAudio(Seq<u8>, Seq<u8>),
    Bye { reason: Seq<u8> },
}

/// A server-to-client message.
pub enum ServerMsg {
    /// Protocol version notice; sent exactly once, first, after accept.
    Version(u64),
    /// Roster response to `ClientMsg::GetClients`.
    Clients(Vec<ClientDescription>),
    /// A peer's encoded audio frame, tagged with the sender's identifier.
    OpusAudio(UuidWrapper, Vec<u8>),
    /// Graceful close notice, written immediately before the connection closes.
    Bye { reason: Vec<u8> },
}

impl View for ServerMsg {
    type V = ServerMsgV;

    open spec fn view(&self) -> ServerMsgV {
        match self {
            ServerMsg::Version(v) => ServerMsgV::Version(*v),
            ServerMsg::Clients(ds) => ServerMsgV::Clients(ds.deep_view()),
            ServerMsg::OpusAudio(id, a) => ServerMsgV::OpusAudio(id@, a@),
            ServerMsg::Bye { reason } => ServerMsgV::Bye { reason: reason@ },
        }
    }
}

impl DeepView for ServerMsg {
    type V = ServerMsgV;

    open spec fn deep_view(&self) -> ServerMsgV {
        self@
    }
}

/// The deep view of a vector indexes as the deep views of its elements.
pub proof fn lemma_deep_view_index<T: DeepView>(v: &Vec<T>)
    ensures
        v.deep_view().len() == v@.len(),
        forall|k: int| 0 <= k < v@.len() ==> #[trigger] v.deep_view()[k] == v@[k].deep_view(),
{
}

impl ServerMsgV {
    /// Encodable messages: field lengths fit their length fields and
    /// identifiers are 16 bytes.
    pub open spec fn wf(self) -> bool {
        match self {
            ServerMsgV::Version(_) => true,
            ServerMsgV::Clients(ds) => {
                &&& ds.len() <= u32::MAX
                &&& forall|i: int| 0 <= i < ds.len() ==> #[trigger] ds[i].wf()
            },
            ServerMsgV::OpusAudio(id, a) => id.len() == 16 && a.len() <= u32::MAX,
            ServerMsgV::Bye { reason } => reason.len() <= u32::MAX,
        }
    }
}

} // verus!
