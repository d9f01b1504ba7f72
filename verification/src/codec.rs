//! Schema encoding of the wire protocol.
//!
//! Every message is encoded deterministically: a one-byte variant tag
//! followed by the variant's fields.  Variable-length byte fields carry a
//! little-endian `u32` length; identifiers are 16 raw bytes; the version is
//! a little-endian `u64`.  `decode` recovers exactly the encoded value and
//! rejects anything else, including trailing bytes.

use vstd::prelude::*;

use crate::protocol::ClientDescription;
use crate::protocol::ClientDescriptionV;
use crate::protocol::ClientMsg;
use crate::protocol::ClientMsgV;
use crate::protocol::ServerMsg;
use crate::protocol::ServerMsgV;
use crate::protocol::UuidWrapper;

verus! {

// ---------------------------------------------------------------------------
// Little-endian integers
// ---------------------------------------------------------------------------

/// The four little-endian bytes of `x`.
pub open spec fn le32_seq(x: u32) -> Seq<u8> {
    seq![
        (x & 0xff) as u8,
        ((x >> 8) & 0xff) as u8,
        ((x >> 16) & 0xff) as u8,
        ((x >> 24) & 0xff) as u8,
    ]
}

/// The `u32` denoted by four little-endian bytes.
pub open spec fn le32_val(b0: u8, b1: u8, b2: u8, b3: u8) -> u32 {
    (b0 as u32) | ((b1 as u32) << 8) | ((b2 as u32) << 16) | ((b3 as u32) << 24)
}

pub proof fn lemma_le32_round_trip(x: u32)
    ensures
        le32_val(
            (x & 0xff) as u8,
            ((x >> 8) & 0xff) as u8,
            ((x >> 16) & 0xff) as u8,
            ((x >> 24) & 0xff) as u8,
        ) == x,
{
    assert(((x & 0xff) as u8 as u32) | (((x >> 8) & 0xff) as u8 as u32) << 8 | (((x >> 16)
        & 0xff) as u8 as u32) << 16 | (((x >> 24) & 0xff) as u8 as u32) << 24 == x)
        by (bit_vector);
}

/// The eight little-endian bytes of `x`.
pub open spec fn le64_seq(x: u64) -> Seq<u8> {
    seq![
        (x & 0xff) as u8,
        ((x >> 8) & 0xff) as u8,
        ((x >> 16) & 0xff) as u8,
        ((x >> 24) & 0xff) as u8,
        ((x >> 32) & 0xff) as u8,
        ((x >> 40) & 0xff) as u8,
        ((x >> 48) & 0xff) as u8,
        ((x >> 56) & 0xff) as u8,
    ]
}

/// The `u64` denoted by eight little-endian bytes.
pub open spec fn le64_val(
    b0: u8,
    b1: u8,
    b2: u8,
    b3: u8,
    b4: u8,
    b5: u8,
    b6: u8,
    b7: u8,
) -> u64 {
    (b0 as u64) | ((b1 as u64) << 8) | ((b2 as u64) << 16) | ((b3 as u64) << 24) | ((b4
        as u64) << 32) | ((b5 as u64) << 40) | ((b6 as u64) << 48) | ((b7 as u64) << 56)
}

pub proof fn lemma_le64_round_trip(x: u64)
    ensures
        le64_val(
            (x & 0xff) as u8,
            ((x >> 8) & 0xff) as u8,
            ((x >> 16) & 0xff) as u8,
            ((x >> 24) & 0xff) as u8,
            ((x >> 32) & 0xff) as u8,
            ((x >> 40) & 0xff) as u8,
            ((x >> 48) & 0xff) as u8,
            ((x >> 56) & 0xff) as u8,
        ) == x,
{
    assert(((x & 0xff) as u8 as u64) | (((x >> 8) & 0xff) as u8 as u64) << 8 | (((x >> 16)
        & 0xff) as u8 as u64) << 16 | (((x >> 24) & 0xff) as u8 as u64) << 24 | (((x >> 32)
        & 0xff) as u8 as u64) << 32 | (((x >> 40) & 0xff) as u8 as u64) << 40 | (((x >> 48)
        & 0xff) as u8 as u64) << 48 | (((x >> 56) & 0xff) as u8 as u64) << 56 == x)
        by (bit_vector);
}

/// Appends the four little-endian bytes of `x` to `out`.
pub fn push_le32(out: &mut Vec<u8>, x: u32)
    ensures
        final(out)@ == old(out)@ + le32_seq(x),
{
    assert(x & 0xff <= 0xff && (x >> 8) & 0xff <= 0xff && (x >> 16) & 0xff <= 0xff && (x >> 24)
        & 0xff <= 0xff) by (bit_vector);
    out.push((x & 0xff) as u8);
    out.push(((x >> 8) & 0xff) as u8);
    out.push(((x >> 16) & 0xff) as u8);
    out.push(((x >> 24) & 0xff) as u8);
    proof {
        assert(out@ =~= old(out)@ + le32_seq(x));
    }
}

/// Appends the eight little-endian bytes of `x` to `out`.
pub fn push_le64(out: &mut Vec<u8>, x: u64)
    ensures
        final(out)@ == old(out)@ + le64_seq(x),
{
    assert(x & 0xff <= 0xff && (x >> 8) & 0xff <= 0xff && (x >> 16) & 0xff <= 0xff && (x >> 24)
        & 0xff <= 0xff && (x >> 32) & 0xff <= 0xff && (x >> 40) & 0xff <= 0xff && (x >> 48)
        & 0xff <= 0xff && (x >> 56) & 0xff <= 0xff) by (bit_vector);
    out.push((x & 0xff) as u8);
    out.push(((x >> 8) & 0xff) as u8);
    out.push(((x >> 16) & 0xff) as u8);
    out.push(((x >> 24) & 0xff) as u8);
    out.push(((x >> 32) & 0xff) as u8);
    out.push(((x >> 40) & 0xff) as u8);
    out.push(((x >> 48) & 0xff) as u8);
    out.push(((x >> 56) & 0xff) as u8);
    proof {
        assert(out@ =~= old(out)@ + le64_seq(x));
    }
}

/// Reads the little-endian `u32` at offset `off`.
pub fn read_le32(b: &Vec<u8>, off: usize) -> (r: u32)
    requires
        off + 4 <= b@.len(),
    ensures
        r == le32_val(b@[off as int], b@[off + 1], b@[off + 2], b@[off + 3]),
{
    let _n = b.len();
    let b0 = b[off];
    let b1 = b[off + 1];
    let b2 = b[off + 2];
    let b3 = b[off + 3];
    (b0 as u32) | ((b1 as u32) << 8) | ((b2 as u32) << 16) | ((b3 as u32) << 24)
}

/// Reads the little-endian `u64` at offset `off`.
pub fn read_le64(b: &Vec<u8>, off: usize) -> (r: u64)
    requires
        off + 8 <= b@.len(),
    ensures
        r == le64_val(
            b@[off as int],
            b@[off + 1],
            b@[off + 2],
            b@[off + 3],
            b@[off + 4],
            b@[off + 5],
            b@[off + 6],
            b@[off + 7],
        ),
{
    let _n = b.len();
    let b0 = b[off];
    let b1 = b[off + 1];
    let b2 = b[off + 2];
    let b3 = b[off + 3];
    let b4 = b[off + 4];
    let b5 = b[off + 5];
    let b6 = b[off + 6];
    let b7 = b[off + 7];
    (b0 as u64) | ((b1 as u64) << 8) | ((b2 as u64) << 16) | ((b3 as u64) << 24) | ((b4
        as u64) << 32) | ((b5 as u64) << 40) | ((b6 as u64) << 48) | ((b7 as u64) << 56)
}

/// Copies `v[a..c]` into a fresh vector.
pub fn copy_range(v: &Vec<u8>, a: usize, c: usize) -> (r: Vec<u8>)
    requires
        a <= c <= v@.len(),
    ensures
        r@ == v@.subrange(a as int, c as int),
{
    let mut out: Vec<u8> = Vec::new();
    let mut i: usize = a;
    while i < c
        invariant
            a <= i <= c <= v@.len(),
            out@ == v@.subrange(a as int, i as int),
        decreases c - i,
    {
        out.push(v[i]);
        i = i + 1;
        proof {
            assert(out@ =~= v@.subrange(a as int, i as int));
        }
    }
    out
}

// ---------------------------------------------------------------------------
// Length-prefixed byte fields
// ---------------------------------------------------------------------------

/// A byte field on the wire: little-endian length, then the bytes.
pub open spec fn enc_lp(b: Seq<u8>) -> Seq<u8> {
    le32_seq(b.len() as u32) + b
}

/// Decodes a length-prefixed field that must fill `b` from `off` to the end.
pub open spec fn dec_lp_all(b: Seq<u8>, off: int) -> Option<Seq<u8>> {
    if off + 4 <= b.len() && off + 4 + le32_val(b[off], b[off + 1], b[off + 2], b[off + 3])
        == b.len() {
        Option::Some(b.subrange(off + 4, b.len() as int))
    } else {
        Option::None
    }
}

/// Appends the length-prefixed encoding of `b` to `out`.
pub fn push_lp(out: &mut Vec<u8>, b: &Vec<u8>)
    requires
        b@.len() <= u32::MAX,
    ensures
        final(out)@ == old(out)@ + enc_lp(b@),
{
    push_le32(out, b.len() as u32);
    out.extend_from_slice(b.as_slice());
    proof {
        assert(out@ =~= old(out)@ + enc_lp(b@));
    }
}

/// Reads a length-prefixed field that must fill `b` from `off` to the end.
pub fn read_lp_all(b: &Vec<u8>, off: usize) -> (r: Option<Vec<u8>>)
    requires
        off <= b@.len(),
    ensures
        match r {
            Option::Some(v) => dec_lp_all(b@, off as int) == Option::Some(v@),
            Option::None => dec_lp_all(b@, off as int) is None,
        },
{
    if b.len() - off < 4 {
        return Option::None;
    }
    let l = read_le32(b, off);
    if (b.len() - off - 4) as u64 != l as u64 {
        return Option::None;
    }
    Option::Some(copy_range(b, off + 4, b.len()))
}

// ---------------------------------------------------------------------------
// Client messages
// ---------------------------------------------------------------------------

/// The encoding of a client-to-server message.
pub open spec fn spec_encode_client(m: ClientMsgV) -> Seq<u8> {
    match m {
        ClientMsgV::GetClients => seq![0u8],
        ClientMsgV::Nickname(n) => seq![1u8] + enc_lp(n),
        ClientMsgV::OpusAudio(a) => seq![2u8] + enc_lp(a),
        ClientMsgV::Leave => seq![3u8],
    }
}

/// The unique client message a payload encodes, if any.
pub open spec fn spec_decode_client(b: Seq<u8>) -> Option<ClientMsgV> {
    if b.len() < 1 {
        Option::None
    } else if b[0] == 0u8 {
        if b.len() == 1 {
            Option::Some(ClientMsgV::GetClients)
        } else {
            Option::None
        }
    } else if b[0] == 1u8 {
        match dec_lp_all(b, 1) {
            Option::Some(n) => Option::Some(ClientMsgV::Nickname(n)),
            Option::None => Option::None,
        }
    } else if b[0] == 2u8 {
        match dec_lp_all(b, 1) {
            Option::Some(a) => Option::Some(ClientMsgV::OpusAudio(a)),
            Option::None => Option::None,
        }
    } else if b[0] == 3u8 {
        if b.len() == 1 {
            Option::Some(ClientMsgV::Leave)
        } else {
            Option::None
        }
    } else {
        Option::None
    }
}

proof fn lemma_lp_round_trip(prefix: Seq<u8>, body: Seq<u8>)
    requires
        body.len() <= u32::MAX,
    ensures
        dec_lp_all(prefix + enc_lp(body), prefix.len() as int) == Option::Some(body),
{
    let b = prefix + enc_lp(body);
    let off = prefix.len() as int;
    let x = body.len() as u32;
    lemma_le32_round_trip(x);
    assert(b[off] == le32_seq(x)[0]);
    assert(b[off + 1] == le32_seq(x)[1]);
    assert(b[off + 2] == le32_seq(x)[2]);
    assert(b[off + 3] == le32_seq(x)[3]);
    assert(le32_val(b[off], b[off + 1], b[off + 2], b[off + 3]) == x);
    assert(b.subrange(off + 4, b.len() as int) =~= body);
}

/// The round-trip law, client direction: decoding an encoded message gives
/// back exactly that message.
pub proof fn lemma_client_round_trip(m: ClientMsgV)
    requires
        m.wf(),
    ensures
        spec_decode_client(spec_encode_client(m)) == Option::Some(m),
{
    let e = spec_encode_client(m);
    match m {
        ClientMsgV::GetClients => {
            assert(e.len() == 1 && e[0] == 0u8);
        },
        ClientMsgV::Nickname(n) => {
            assert(e[0] == 1u8);
            lemma_lp_round_trip(seq![1u8], n);
        },
        ClientMsgV::OpusAudio(a) => {
            assert(e[0] == 2u8);
            lemma_lp_round_trip(seq![2u8], a);
        },
        ClientMsgV::Leave => {
            assert(e.len() == 1 && e[0] == 3u8);
        },
    }
}

/// Encodes a client message into its payload bytes.
pub fn encode_client_msg(m: &ClientMsg) -> (r: Vec<u8>)
    requires
        m@.wf(),
    ensures
        r@ == spec_encode_client(m@),
{
    let mut out: Vec<u8> = Vec::new();
    match m {
        ClientMsg::GetClients => {
            out.push(0u8);
            proof {
                assert(out@ =~= spec_encode_client(m@));
            }
        },
        ClientMsg::Nickname(n) => {
            out.push(1u8);
            push_lp(&mut out, n);
            proof {
                assert(out@ =~= spec_encode_client(m@));
            }
        },
        ClientMsg::OpusAudio(a) => {
            out.push(2u8);
            push_lp(&mut out, a);
            proof {
                assert(out@ =~= spec_encode_client(m@));
            }
        },
        ClientMsg::Leave => {
            out.push(3u8);
            proof {
                assert(out@ =~= spec_encode_client(m@));
            }
        },
    }
    out
}

/// The view of a decoder result.
pub open spec fn view_opt_client(r: Option<ClientMsg>) -> Option<ClientMsgV> {
    match r {
        Option::Some(m) => Option::Some(m@),
        Option::None => Option::None,
    }
}

/// Decodes a payload into the client message it encodes, or `None` when the
/// bytes are not the encoding of any client message.
pub fn decode_client_msg(b: &Vec<u8>) -> (r: Option<ClientMsg>)
    ensures
        view_opt_client(r) == spec_decode_client(b@),
{
    if b.len() < 1 {
        return Option::None;
    }
    let tag = b[0];
    if tag == 0u8 {
        if b.len() == 1 {
            Option::Some(ClientMsg::GetClients)
        } else {
            Option::None
        }
    } else if tag == 1u8 {
        match read_lp_all(b, 1) {
            Option::Some(n) => Option::Some(ClientMsg::Nickname(n)),
            Option::None => Option::None,
        }
    } else if tag == 2u8 {
        match read_lp_all(b, 1) {
            Option::Some(a) => Option::Some(ClientMsg::OpusAudio(a)),
            Option::None => Option::None,
        }
    } else if tag == 3u8 {
        if b.len() == 1 {
            Option::Some(ClientMsg::Leave)
        } else {
            Option::None
        }
    } else {
        Option::None
    }
}

// ---------------------------------------------------------------------------
// Roster entries
// ---------------------------------------------------------------------------

/// The encoding of one roster entry: an option tag, the nickname bytes when
/// present, then the 16 identifier bytes.
pub open spec fn enc_desc(d: ClientDescriptionV) -> Seq<u8> {
    (match d.nickname {
        Option::None => seq![0u8],
        Option::Some(n) => seq![1u8] + enc_lp(n),
    }) + d.uuid
}

/// The concatenated encodings of a roster.
pub open spec fn enc_descs(s: Seq<ClientDescriptionV>) -> Seq<u8>
    decreases s.len(),
{
    if s.len() == 0 {
        Seq::empty()
    } else {
        enc_desc(s[0]) + enc_descs(s.skip(1))
    }
}

/// Decodes one roster entry at offset `off`, yielding it and the offset of
/// what follows.
pub open spec fn dec_desc_at(b: Seq<u8>, off: int) -> Option<(ClientDescriptionV, int)> {
    if 0 <= off && off + 1 <= b.len() {
        if b[off] == 0u8 {
            if off + 17 <= b.len() {
                Option::Some(
                    (
                        ClientDescriptionV {
                            nickname: Option::None,
                            uuid: b.subrange(off + 1, off + 17),
                        },
                        off + 17,
                    ),
                )
            } else {
                Option::None
            }
        } else if b[off] == 1u8 {
            if off + 5 <= b.len() {
                let nl = le32_val(b[off + 1], b[off + 2], b[off + 3], b[off + 4]) as int;
                if off + 5 + nl + 16 <= b.len() {
                    Option::Some(
                        (
                            ClientDescriptionV {
                                nickname: Option::Some(b.subrange(off + 5, off + 5 + nl)),
                                uuid: b.subrange(off + 5 + nl, off + 5 + nl + 16),
                            },
                            off + 5 + nl + 16,
                        ),
                    )
                } else {
                    Option::None
                }
            } else {
                Option::None
            }
        } else {
            Option::None
        }
    } else {
        Option::None
    }
}

/// Decodes `count` consecutive roster entries starting at `off`.
pub open spec fn dec_descs_at(b: Seq<u8>, off: int, count: nat) -> Option<
    (Seq<ClientDescriptionV>, int),
>
    decreases count,
{
    if count == 0 {
        Option::Some((Seq::empty(), off))
    } else {
        match dec_desc_at(b, off) {
            Option::None => Option::None,
            Option::Some((d, off2)) => match dec_descs_at(b, off2, (count - 1) as nat) {
                Option::None => Option::None,
                Option::Some((ds, off3)) => Option::Some((seq![d] + ds, off3)),
            },
        }
    }
}

proof fn lemma_enc_descs_snoc(s: Seq<ClientDescriptionV>, d: ClientDescriptionV)
    ensures
        enc_descs(s.push(d)) == enc_descs(s) + enc_desc(d),
    decreases s.len(),
{
    if s.len() == 0 {
        assert(s.push(d)[0] == d);
        assert(s.push(d).skip(1) =~= Seq::<ClientDescriptionV>::empty());
        assert(enc_descs(Seq::<ClientDescriptionV>::empty()) == Seq::<u8>::empty());
        assert(enc_descs(s.push(d)) == enc_desc(d) + Seq::<u8>::empty());
        assert(enc_desc(d) + Seq::<u8>::empty() =~= enc_desc(d));
        assert(enc_descs(s) == Seq::<u8>::empty());
        assert(Seq::<u8>::empty() + enc_desc(d) =~= enc_desc(d));
    } else {
        assert(s.push(d)[0] == s[0]);
        assert(s.push(d).skip(1) =~= s.skip(1).push(d));
        lemma_enc_descs_snoc(s.skip(1), d);
        assert(enc_desc(s[0]) + (enc_descs(s.skip(1)) + enc_desc(d)) =~= (enc_desc(s[0])
            + enc_descs(s.skip(1))) + enc_desc(d));
    }
}

proof fn lemma_desc_round_trip(b: Seq<u8>, off: int, d: ClientDescriptionV)
    requires
        d.wf(),
        0 <= off,
        off + enc_desc(d).len() <= b.len(),
        b.subrange(off, off + enc_desc(d).len() as int) == enc_desc(d),
    ensures
        dec_desc_at(b, off) == Option::Some((d, off + enc_desc(d).len() as int)),
{
    let e = enc_desc(d);
    let sub = b.subrange(off, off + e.len() as int);
    match d.nickname {
        Option::None => {
            assert(b[off] == sub[0]);
            assert(sub[0] == 0u8);
            assert(b.subrange(off + 1, off + 17) =~= sub.subrange(1, 17));
            assert(sub.subrange(1, 17) =~= d.uuid);
        },
        Option::Some(n) => {
            let nl = n.len() as int;
            assert(b[off] == sub[0]);
            assert(sub[0] == 1u8);
            let x = n.len() as u32;
            lemma_le32_round_trip(x);
            assert(b[off + 1] == sub[1] && b[off + 2] == sub[2] && b[off + 3] == sub[3] && b[off
                + 4] == sub[4]);
            assert(sub[1] == le32_seq(x)[0] && sub[2] == le32_seq(x)[1] && sub[3] == le32_seq(x)[2]
                && sub[4] == le32_seq(x)[3]);
            assert(le32_val(b[off + 1], b[off + 2], b[off + 3], b[off + 4]) == x);
            assert(b.subrange(off + 5, off + 5 + nl) =~= sub.subrange(5, 5 + nl));
            assert(sub.subrange(5, 5 + nl) =~= n);
            assert(b.subrange(off + 5 + nl, off + 5 + nl + 16) =~= sub.subrange(
                5 + nl,
                5 + nl + 16,
            ));
            assert(sub.subrange(5 + nl, 5 + nl + 16) =~= d.uuid);
        },
    }
}

proof fn lemma_descs_round_trip(b: Seq<u8>, off: int, ds: Seq<ClientDescriptionV>)
    requires
        forall|i: int| 0 <= i < ds.len() ==> #[trigger] ds[i].wf(),
        0 <= off,
        off + enc_descs(ds).len() <= b.len(),
        b.subrange(off, off + enc_descs(ds).len() as int) == enc_descs(ds),
    ensures
        dec_descs_at(b, off, ds.len()) == Option::Some((ds, off + enc_descs(ds).len() as int)),
    decreases ds.len(),
{
    if ds.len() == 0 {
        assert(ds =~= Seq::<ClientDescriptionV>::empty());
    } else {
        let e = enc_descs(ds);
        let e0 = enc_desc(ds[0]);
        let rest = enc_descs(ds.skip(1));
        assert(e == e0 + rest);
        let sub = b.subrange(off, off + e.len() as int);
        assert(b.subrange(off, off + e0.len() as int) =~= sub.subrange(0, e0.len() as int));
        assert(sub.subrange(0, e0.len() as int) =~= e0);
        lemma_desc_round_trip(b, off, ds[0]);
        let off2 = off + e0.len() as int;
        assert(b.subrange(off2, off2 + rest.len() as int) =~= sub.subrange(
            e0.len() as int,
            e.len() as int,
        ));
        assert(sub.subrange(e0.len() as int, e.len() as int) =~= rest);
        lemma_descs_round_trip(b, off2, ds.skip(1));
        assert(seq![ds[0]] + ds.skip(1) =~= ds);
        assert(dec_descs_at(b, off, ds.len()) == Option::Some(
            (ds, off + enc_descs(ds).len() as int),
        ));
    }
}

/// Splitting a roster parse: parsing `i + j` entries is parsing `i`, then
/// `j` more from where the first parse stopped.
proof fn lemma_descs_split(b: Seq<u8>, off: int, i: nat, j: nat)
    ensures
        dec_descs_at(b, off, i + j) == match dec_descs_at(b, off, i) {
            Option::None => Option::None::<(Seq<ClientDescriptionV>, int)>,
            Option::Some((s1, o1)) => match dec_descs_at(b, o1, j) {
                Option::None => Option::None,
                Option::Some((s2, o2)) => Option::Some((s1 + s2, o2)),
            },
        },
    decreases i,
{
    if i == 0 {
        match dec_descs_at(b, off, j) {
            Option::None => {},
            Option::Some((s2, o2)) => {
                assert(Seq::<ClientDescriptionV>::empty() + s2 =~= s2);
            },
        }
    } else {
        match dec_desc_at(b, off) {
            Option::None => {},
            Option::Some((d, off2)) => {
                lemma_descs_split(b, off2, (i - 1) as nat, j);
                match dec_descs_at(b, off2, (i - 1) as nat) {
                    Option::None => {},
                    Option::Some((s1, o1)) => {
                        match dec_descs_at(b, o1, j) {
                            Option::None => {},
                            Option::Some((s2, o2)) => {
                                assert(seq![d] + (s1 + s2) =~= (seq![d] + s1) + s2);
                            },
                        }
                    },
                }
            },
        }
    }
}

/// Appends the encoding of one roster entry to `out`.
pub fn push_desc(out: &mut Vec<u8>, d: &ClientDescription)
    requires
        d@.wf(),
    ensures
        final(out)@ == old(out)@ + enc_desc(d@),
{
    match &d.nickname {
        Option::None => {
            out.push(0u8);
        },
        Option::Some(n) => {
            out.push(1u8);
            push_lp(out, n);
        },
    }
    out.extend_from_slice(d.uuid.bytes().as_slice());
    proof {
        assert(out@ =~= old(out)@ + enc_desc(d@));
    }
}

/// Reads one roster entry at offset `off`, returning it and the offset of
/// what follows.
pub fn read_desc(b: &Vec<u8>, off: usize) -> (r: Option<(ClientDescription, usize)>)
    requires
        off <= b@.len(),
    ensures
        match r {
            Option::Some(p) => {
                &&& dec_desc_at(b@, off as int) == Option::Some((p.0@, p.1 as int))
                &&& off < p.1 <= b@.len()
            },
            Option::None => dec_desc_at(b@, off as int) is None,
        },
{
    let n = b.len();
    if n - off < 1 {
        return Option::None;
    }
    let tag = b[off];
    if tag == 0u8 {
        if n - off >= 17 {
            let uuid = copy_range(b, off + 1, off + 17);
            let d = ClientDescription { nickname: Option::None, uuid: UuidWrapper::from_bytes(uuid) };
            Option::Some((d, off + 17))
        } else {
            Option::None
        }
    } else if tag == 1u8 {
        if n - off >= 5 {
            let nl = read_le32(b, off + 1) as usize;
            if n - off - 5 >= nl && n - off - 5 - nl >= 16 {
                let nick = copy_range(b, off + 5, off + 5 + nl);
                let uuid = copy_range(b, off + 5 + nl, off + 5 + nl + 16);
                let d = ClientDescription {
                    nickname: Option::Some(nick),
                    uuid: UuidWrapper::from_bytes(uuid),
                };
                Option::Some((d, off + 5 + nl + 16))
            } else {
                Option::None
            }
        } else {
            Option::None
        }
    } else {
        Option::None
    }
}

// ---------------------------------------------------------------------------
// Server messages
// ---------------------------------------------------------------------------

/// The encoding of a server-to-client message.
pub open spec fn spec_encode_server(m: ServerMsgV) -> Seq<u8> {
    match m {
        ServerMsgV::Version(v) => seq![0u8] + le64_seq(v),
        ServerMsgV::Clients(ds) => seq![1u8] + le32_seq(ds.len() as u32) + enc_descs(ds),
        ServerMsgV::OpusAudio(id, a) => seq![2u8] + id + enc_lp(a),
        ServerMsgV::Bye { reason } => seq![3u8] + enc_lp(reason),
    }
}

/// The unique server message a payload encodes, if any.
pub open spec fn spec_decode_server(b: Seq<u8>) -> Option<ServerMsgV> {
    if b.len() < 1 {
        Option::None
    } else if b[0] == 0u8 {
        if b.len() == 9 {
            Option::Some(
                ServerMsgV::Version(
                    le64_val(b[1], b[2], b[3], b[4], b[5], b[6], b[7], b[8]),
                ),
            )
        } else {
            Option::None
        }
    } else if b[0] == 1u8 {
        if b.len() >= 5 {
            match dec_descs_at(b, 5, le32_val(b[1], b[2], b[3], b[4]) as nat) {
                Option::Some((ds, off)) => if off == b.len() {
                    Option::Some(ServerMsgV::Clients(ds))
                } else {
                    Option::None
                },
                Option::None => Option::None,
            }
        } else {
            Option::None
        }
    } else if b[0] == 2u8 {
        if b.len() >= 17 {
            match dec_lp_all(b, 17) {
                Option::Some(a) => Option::Some(ServerMsgV::OpusAudio(b.subrange(1, 17), a)),
                Option::None => Option::None,
            }
        } else {
            Option::None
        }
    } else if b[0] == 3u8 {
        match dec_lp_all(b, 1) {
            Option::Some(r) => Option::Some(ServerMsgV::Bye { reason: r }),
            Option::None => Option::None,
        }
    } else {
        Option::None
    }
}

/// The round-trip law, server direction: decoding an encoded message gives
/// back exactly that message.
pub proof fn lemma_server_round_trip(m: ServerMsgV)
    requires
        m.wf(),
    ensures
        spec_decode_server(spec_encode_server(m)) == Option::Some(m),
{
    let e = spec_encode_server(m);
    match m {
        ServerMsgV::Version(v) => {
            assert(e[0] == 0u8 && e.len() == 9);
            lemma_le64_round_trip(v);
            assert(e[1] == le64_seq(v)[0] && e[2] == le64_seq(v)[1] && e[3] == le64_seq(v)[2]
                && e[4] == le64_seq(v)[3] && e[5] == le64_seq(v)[4] && e[6] == le64_seq(v)[5]
                && e[7] == le64_seq(v)[6] && e[8] == le64_seq(v)[7]);
        },
        ServerMsgV::Clients(ds) => {
            assert(e[0] == 1u8);
            let x = ds.len() as u32;
            lemma_le32_round_trip(x);
            assert(e[1] == le32_seq(x)[0] && e[2] == le32_seq(x)[1] && e[3] == le32_seq(x)[2]
                && e[4] == le32_seq(x)[3]);
            assert(le32_val(e[1], e[2], e[3], e[4]) == x);
            assert(e.subrange(5, 5 + enc_descs(ds).len() as int) =~= enc_descs(ds));
            lemma_descs_round_trip(e, 5, ds);
        },
        ServerMsgV::OpusAudio(id, a) => {
            assert(e[0] == 2u8);
            assert(e.subrange(1, 17) =~= id);
            assert((seq![2u8] + id) + enc_lp(a) =~= e);
            lemma_lp_round_trip(seq![2u8] + id, a);
        },
        ServerMsgV::Bye { reason } => {
            assert(e[0] == 3u8);
            lemma_lp_round_trip(seq![3u8], reason);
        },
    }
}

/// Encodes a server message into its payload bytes.
pub fn encode_server_msg(m: &ServerMsg) -> (r: Vec<u8>)
    requires
        m@.wf(),
    ensures
        r@ == spec_encode_server(m@),
{
    let mut out: Vec<u8> = Vec::new();
    match m {
        ServerMsg::Version(v) => {
            out.push(0u8);
            push_le64(&mut out, *v);
            proof {
                assert(out@ =~= spec_encode_server(m@));
            }
        },
        ServerMsg::Clients(ds) => {
            out.push(1u8);
            push_le32(&mut out, ds.len() as u32);
            let ghost head = out@;
            let mut i: usize = 0;
            while i < ds.len()
                invariant
                    i <= ds@.len(),
                    forall|k: int| 0 <= k < ds@.len() ==> #[trigger] ds.deep_view()[k].wf(),
                    out@ == head + enc_descs(ds.deep_view().take(i as int)),
                decreases ds@.len() - i,
            {
                proof {
                    assert(ds.deep_view()[i as int].wf());
                    lemma_enc_descs_snoc(ds.deep_view().take(i as int), ds.deep_view()[i as int]);
                    assert(ds.deep_view().take(i + 1) =~= ds.deep_view().take(i as int).push(
                        ds.deep_view()[i as int],
                    ));
                }
                push_desc(&mut out, &ds[i]);
                proof {
                    assert(out@ =~= head + enc_descs(ds.deep_view().take(i + 1)));
                }
                i = i + 1;
            }
            proof {
                assert(ds.deep_view().take(ds@.len() as int) =~= ds.deep_view());
                assert(out@ =~= spec_encode_server(m@));
            }
        },
        ServerMsg::OpusAudio(id, a) => {
            out.push(2u8);
            out.extend_from_slice(id.bytes().as_slice());
            push_lp(&mut out, a);
            proof {
                assert(out@ =~= spec_encode_server(m@));
            }
        },
        ServerMsg::Bye { reason } => {
            out.push(3u8);
            push_lp(&mut out, reason);
            proof {
                assert(out@ =~= spec_encode_server(m@));
            }
        },
    }
    out
}

/// The view of a decoder result.
pub open spec fn view_opt_server(r: Option<ServerMsg>) -> Option<ServerMsgV> {
    match r {
        Option::Some(m) => Option::Some(m@),
        Option::None => Option::None,
    }
}

/// Decodes a payload into the server message it encodes, or `None` when the
/// bytes are not the encoding of any server message.
pub fn decode_server_msg(b: &Vec<u8>) -> (r: Option<ServerMsg>)
    ensures
        view_opt_server(r) == spec_decode_server(b@),
{
    if b.len() < 1 {
        return Option::None;
    }
    let tag = b[0];
    if tag == 0u8 {
        if b.len() == 9 {
            Option::Some(ServerMsg::Version(read_le64(b, 1)))
        } else {
            Option::None
        }
    } else if tag == 1u8 {
        if b.len() >= 5 {
            let count = read_le32(b, 1);
            let mut ds: Vec<ClientDescription> = Vec::new();
            proof {
                assert(ds.deep_view() =~= Seq::<ClientDescriptionV>::empty());
            }
            let mut off: usize = 5;
            let mut i: u32 = 0;
            while i < count
                invariant
                    i <= count,
                    5 <= off <= b@.len(),
                    b@[0] == 1u8,
                    count == le32_val(b@[1], b@[2], b@[3], b@[4]),
                    dec_descs_at(b@, 5, i as nat) == Option::Some(
                        (ds.deep_view(), off as int),
                    ),
                decreases count - i,
            {
                match read_desc(b, off) {
                    Option::Some(p) => {
                        proof {
                            lemma_descs_split(b@, 5, i as nat, 1nat);
                            assert(dec_descs_at(b@, p.1 as int, 0) == Option::Some(
                                (Seq::<ClientDescriptionV>::empty(), p.1 as int),
                            ));
                            assert(seq![p.0@] + Seq::<ClientDescriptionV>::empty() =~= seq![
                                p.0@,
                            ]);
                            assert(dec_descs_at(b@, off as int, 1) == Option::Some(
                                (seq![p.0@], p.1 as int),
                            ));
                            assert(ds.deep_view() + seq![p.0@] =~= ds.deep_view().push(p.0@));
                        }
                        let ghost prev = ds.deep_view();
                        let (d, off2) = p;
                        ds.push(d);
                        proof {
                            assert(forall|k: int|
                                0 <= k < ds@.len() ==> #[trigger] ds.deep_view()[k]
                                    == ds@[k].deep_view());
                            assert(ds.deep_view() =~= prev.push(d@));
                            assert(prev + seq![d@] =~= prev.push(d@));
                        }
                        off = off2;
                        i = i + 1;
                    },
                    Option::None => {
                        proof {
                            lemma_descs_split(b@, 5, i as nat, (count - i) as nat);
                            assert(dec_descs_at(b@, off as int, (count - i) as nat) is None);
                            assert(dec_descs_at(b@, 5, count as nat) is None);
                        }
                        return Option::None;
                    },
                }
            }
            if off == b.len() {
                Option::Some(ServerMsg::Clients(ds))
            } else {
                Option::None
            }
        } else {
            Option::None
        }
    } else if tag == 2u8 {
        if b.len() >= 17 {
            let uuid = copy_range(b, 1, 17);
            match read_lp_all(b, 17) {
                Option::Some(a) => Option::Some(
                    ServerMsg::OpusAudio(UuidWrapper::from_bytes(uuid), a),
                ),
                Option::None => Option::None,
            }
        } else {
            Option::None
        }
    } else if tag == 3u8 {
        match read_lp_all(b, 1) {
            Option::Some(r) => Option::Some(ServerMsg::Bye { reason: r }),
            Option::None => Option::None,
        }
    } else {
        Option::None
    }
}

} // verus!
