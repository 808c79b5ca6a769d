use vstd::prelude::*;
use crate::decode::{BencodeError, Fault, copy_range, dec_value, decode_bencode};
use crate::encode::{enc, encode_bvalue};
use crate::value::{BValue, Value};

verus! {

pub const BT_PROTOCOL_LEN: u8 = 19;

/// `BitTorrent protocol`
pub open spec fn protocol_name() -> Seq<u8> {
    seq![66u8, 105, 116, 84, 111, 114, 114, 101, 110, 116, 32, 112, 114, 111, 116, 111, 99, 111, 108]
}

fn protocol_name_bytes() -> (r: Vec<u8>)
    ensures
        r@ == protocol_name(),
{
    vec![66u8, 105, 116, 84, 111, 114, 114, 101, 110, 116, 32, 112, 114, 111, 116, 111, 99, 111, 108]
}

/// The eight reserved bytes; bit `0x10` of the sixth announces the extension protocol.
pub open spec fn reserved(extension: bool) -> Seq<u8> {
    seq![0u8, 0, 0, 0, 0, if extension { 16u8 } else { 0u8 }, 0, 0]
}

/// The 68-byte handshake.
pub open spec fn handshake_spec(info_hash: Seq<u8>, peer_id: Seq<u8>, extension: bool) -> Seq<u8> {
    seq![19u8] + protocol_name() + reserved(extension) + info_hash + peer_id
}

/// Why a handshake was refused.
#[derive(Debug, PartialEq, Eq)]
pub enum HandshakeError {
    BadLength,
    BadProtocolLength,
    BadProtocolName,
    InfoHashMismatch,
}

/// The remote peer id and extension flag of a handshake, or why it is refused.
pub open spec fn handshake_parse(buf: Seq<u8>, expected: Seq<u8>) -> Result<(Seq<u8>, bool), HandshakeError> {
    if buf.len() != 68 {
        Err(HandshakeError::BadLength)
    } else if buf[0] != 19 {
        Err(HandshakeError::BadProtocolLength)
    } else if buf.subrange(1, 20) != protocol_name() {
        Err(HandshakeError::BadProtocolName)
    } else if buf.subrange(28, 48) != expected {
        Err(HandshakeError::InfoHashMismatch)
    } else {
        Ok((buf.subrange(48, 68), (buf[25] / 16) % 2 == 1))
    }
}

/// Reading back a handshake that was sent gives the sender's peer id and extension flag.
pub proof fn lemma_handshake_symmetry(info_hash: Seq<u8>, peer_id: Seq<u8>, extension: bool)
    requires
        info_hash.len() == 20,
        peer_id.len() == 20,
    ensures
        handshake_parse(handshake_spec(info_hash, peer_id, extension), info_hash) == Ok::<
            (Seq<u8>, bool),
            HandshakeError,
        >((peer_id, extension)),
{
    let h = handshake_spec(info_hash, peer_id, extension);
    assert(h.subrange(1, 20) =~= protocol_name());
    assert(h.subrange(28, 48) =~= info_hash);
    assert(h.subrange(48, 68) =~= peer_id);
    assert(h[25] == reserved(extension)[5]);
}

fn push_all(out: &mut Vec<u8>, b: &[u8])
    ensures
        final(out)@ == old(out)@ + b@,
{
    let mut i: usize = 0;
    while i < b.len()
        invariant
            i <= b.len(),
            out@ == old(out)@ + b@.take(i as int),
        decreases b.len() - i,
    {
        out.push(b[i]);
        assert(b@.take(i + 1) =~= b@.take(i as int).push(b@[i as int]));
        i += 1;
    }
    assert(b@.take(i as int) =~= b@);
}

/// The handshake bytes to send.
pub fn build_handshake(info_hash: &[u8; 20], peer_id: &[u8; 20], extension: bool) -> (r: Vec<u8>)
    ensures
        r@ == handshake_spec(info_hash@, peer_id@, extension),
{
    let mut out: Vec<u8> = Vec::new();
    out.push(BT_PROTOCOL_LEN);
    let name = protocol_name_bytes();
    push_all(&mut out, name.as_slice());
    let mut k: usize = 0;
    while k < 8
        invariant
            k <= 8,
            out@ == seq![19u8] + protocol_name() + reserved(extension).take(k as int),
        decreases 8 - k,
    {
        if k == 5 && extension {
            out.push(16);
        } else {
            out.push(0);
        }
        assert(reserved(extension).take(k + 1) =~= reserved(extension).take(k as int).push(
            reserved(extension)[k as int],
        ));
        k += 1;
    }
    assert(reserved(extension).take(8) =~= reserved(extension));
    push_all(&mut out, info_hash.as_slice());
    push_all(&mut out, peer_id.as_slice());
    out
}

/// Checks a received handshake against the expected info-hash; returns the remote peer
/// id and whether the remote supports the extension protocol.
#[verifier::loop_isolation(false)]
pub fn parse_handshake(buf: &[u8], expected_info_hash: &[u8; 20]) -> (r: Result<
    ([u8; 20], bool),
    HandshakeError,
>)
    ensures
        match handshake_parse(buf@, expected_info_hash@) {
            Ok((id, ext)) => r matches Ok((x, e)) && x@ == id && e == ext,
            Err(f) => r == Err::<([u8; 20], bool), HandshakeError>(f),
        },
{
    if buf.len() != 68 {
        return Err(HandshakeError::BadLength);
    }
    if buf[0] != BT_PROTOCOL_LEN {
        return Err(HandshakeError::BadProtocolLength);
    }
    let name = protocol_name_bytes();
    let mut i: usize = 0;
    while i < 19
        invariant
            buf.len() == 68,
            name@ == protocol_name(),
            i <= 19,
            forall|j: int| 0 <= j < i ==> buf@[1 + j] == name@[j],
        decreases 19 - i,
    {
        if buf[1 + i] != name[i] {
            assert(buf@.subrange(1, 20)[i as int] != protocol_name()[i as int]);
            return Err(HandshakeError::BadProtocolName);
        }
        i += 1;
    }
    assert(buf@.subrange(1, 20) =~= protocol_name());
    let mut j: usize = 0;
    while j < 20
        invariant
            buf.len() == 68,
            expected_info_hash@.len() == 20,
            j <= 20,
            forall|t: int| 0 <= t < j ==> buf@[28 + t] == expected_info_hash@[t],
        decreases 20 - j,
    {
        if buf[28 + j] != expected_info_hash[j] {
            assert(buf@.subrange(28, 48)[j as int] != expected_info_hash@[j as int]);
            return Err(HandshakeError::InfoHashMismatch);
        }
        j += 1;
    }
    assert(buf@.subrange(28, 48) =~= expected_info_hash@);
    let mut id = [0u8; 20];
    let mut t: usize = 0;
    while t < 20
        invariant
            buf.len() == 68,
            t <= 20,
            id@.len() == 20,
            forall|u: int| 0 <= u < t ==> id@[u] == buf@[48 + u],
        decreases 20 - t,
    {
        id[t] = buf[48 + t];
        t += 1;
    }
    assert(id@ =~= buf@.subrange(48, 68));
    Ok((id, (buf[25] / 16) % 2 == 1))
}

/// Big-endian bytes of a 32-bit length or number.
pub open spec fn be32(x: nat) -> Seq<u8> {
    seq![(x / 16777216 % 256) as u8, (x / 65536 % 256) as u8, (x / 256 % 256) as u8, (x % 256) as u8]
}

/// The number held big-endian in four bytes from `i`.
pub open spec fn be32_at(b: Seq<u8>, i: int) -> nat {
    (b[i] * 16777216 + b[i + 1] * 65536 + b[i + 2] * 256 + b[i + 3]) as nat
}

fn push_be32(out: &mut Vec<u8>, x: u32)
    ensures
        final(out)@ == old(out)@ + be32(x as nat),
{
    out.push((x / 16777216 % 256) as u8);
    out.push((x / 65536 % 256) as u8);
    out.push((x / 256 % 256) as u8);
    out.push((x % 256) as u8);
    assert(final(out)@ =~= old(out)@ + be32(x as nat));
}

fn read_be32(b: &[u8], i: usize) -> (r: u32)
    requires
        i + 4 <= b.len(),
    ensures
        r as nat == be32_at(b@, i as int),
{
    let x = (b[i] as u32) * 16777216 + (b[i + 1] as u32) * 65536 + (b[i + 2] as u32) * 256 + (
    b[i + 3] as u32);
    x
}

/// A peer wire message.
#[derive(Debug, PartialEq, Eq)]
pub enum Message {
    KeepAlive,
    Choke,
    Unchoke,
    Interested,
    Bitfield,
    Request { index: u32, begin: u32, length: u32 },
    Piece { payload: Vec<u8> },
    /// Extension handshake (extended id 0) and its mapping.
    ExtendedHandshake(BValue),
    /// Extension message addressed to a local extension id: a mapping, then raw bytes.
    ReceiveMetaData { ext_msg_id: u8, dict: BValue, payload: Vec<u8> },
    /// Extension message to send to the remote's extension id.
    RequestMetaData { ext_msg_id: u8, payload: Vec<u8> },
    /// A message that this client reads and leaves alone (not interested, have, cancel,
    /// port); holds its id.
    Ignored(u8),
}

pub enum MsgModel {
    KeepAlive,
    Choke,
    Unchoke,
    Interested,
    Bitfield,
    Request { index: u32, begin: u32, length: u32 },
    Piece { payload: Seq<u8> },
    ExtendedHandshake(Value),
    ReceiveMetaData { ext_msg_id: u8, dict: Value, payload: Seq<u8> },
    RequestMetaData { ext_msg_id: u8, payload: Seq<u8> },
    Ignored(u8),
}

impl View for Message {
    type V = MsgModel;

    open spec fn view(&self) -> MsgModel {
        match self {
            Message::KeepAlive => MsgModel::KeepAlive,
            Message::Choke => MsgModel::Choke,
            Message::Unchoke => MsgModel::Unchoke,
            Message::Interested => MsgModel::Interested,
            Message::Bitfield => MsgModel::Bitfield,
            Message::Request { index, begin, length } => MsgModel::Request {
                index: *index,
                begin: *begin,
                length: *length,
            },
            Message::Piece { payload } => MsgModel::Piece { payload: payload@ },
            Message::ExtendedHandshake(v) => MsgModel::ExtendedHandshake(v@),
            Message::ReceiveMetaData { ext_msg_id, dict, payload } => MsgModel::ReceiveMetaData {
                ext_msg_id: *ext_msg_id,
                dict: dict@,
                payload: payload@,
            },
            Message::RequestMetaData { ext_msg_id, payload } => MsgModel::RequestMetaData {
                ext_msg_id: *ext_msg_id,
                payload: payload@,
            },
            Message::Ignored(id) => MsgModel::Ignored(*id),
        }
    }
}

/// The body of a message: its id, then its payload (empty for a keep-alive).
pub open spec fn body_spec(m: MsgModel) -> Seq<u8> {
    match m {
        MsgModel::KeepAlive => Seq::empty(),
        MsgModel::Choke => seq![0u8],
        MsgModel::Unchoke => seq![1u8],
        MsgModel::Interested => seq![2u8],
        MsgModel::Bitfield => seq![5u8],
        MsgModel::Request { index, begin, length } => seq![6u8] + be32(index as nat) + be32(
            begin as nat,
        ) + be32(length as nat),
        MsgModel::Piece { payload } => seq![7u8] + payload,
        MsgModel::ExtendedHandshake(v) => seq![20u8, 0u8] + enc(v),
        MsgModel::ReceiveMetaData { ext_msg_id, dict, payload } => seq![20u8, ext_msg_id] + enc(
            dict,
        ) + payload,
        MsgModel::RequestMetaData { ext_msg_id, payload } => seq![20u8, ext_msg_id] + payload,
        MsgModel::Ignored(id) => seq![id],
    }
}

/// A framed message: the body's length as four big-endian bytes, then the body.
pub open spec fn frame_spec(m: MsgModel) -> Seq<u8> {
    be32(body_spec(m).len()) + body_spec(m)
}

/// Why a message body was refused.
#[derive(Debug, PartialEq, Eq)]
pub enum WireError {
    UnknownId(u8),
    /// A request whose payload is not three 32-bit numbers.
    Malformed,
    /// An extended message without its extended id.
    EmptyExtended,
    Bencode(BencodeError),
}

pub enum WireFault {
    UnknownId(u8),
    Malformed,
    EmptyExtended,
    Bencode(Fault),
}

impl View for WireError {
    type V = WireFault;

    open spec fn view(&self) -> WireFault {
        match self {
            WireError::UnknownId(id) => WireFault::UnknownId(*id),
            WireError::Malformed => WireFault::Malformed,
            WireError::EmptyExtended => WireFault::EmptyExtended,
            WireError::Bencode(e) => WireFault::Bencode(e@),
        }
    }
}

/// The message that a body (what follows the length prefix) holds.
pub open spec fn parse_spec(body: Seq<u8>) -> Result<MsgModel, WireFault> {
    if body.len() == 0 {
        Ok(MsgModel::KeepAlive)
    } else {
        let id = body[0];
        let payload = body.drop_first();
        if id == 0 {
            Ok(MsgModel::Choke)
        } else if id == 1 {
            Ok(MsgModel::Unchoke)
        } else if id == 2 {
            Ok(MsgModel::Interested)
        } else if id == 5 {
            Ok(MsgModel::Bitfield)
        } else if id == 6 {
            if payload.len() == 12 {
                Ok(
                    MsgModel::Request {
                        index: be32_at(payload, 0) as u32,
                        begin: be32_at(payload, 4) as u32,
                        length: be32_at(payload, 8) as u32,
                    },
                )
            } else {
                Err(WireFault::Malformed)
            }
        } else if id == 7 {
            Ok(MsgModel::Piece { payload })
        } else if id == 20 {
            if payload.len() == 0 {
                Err(WireFault::EmptyExtended)
            } else {
                let ext = payload[0];
                let rest = payload.drop_first();
                match dec_value(rest, 0) {
                    Err(f) => Err(WireFault::Bencode(f)),
                    Ok((n, v)) => if ext == 0 {
                        Ok(MsgModel::ExtendedHandshake(v))
                    } else {
                        Ok(
                            MsgModel::ReceiveMetaData {
                                ext_msg_id: ext,
                                dict: v,
                                payload: rest.subrange(n, rest.len() as int),
                            },
                        )
                    },
                }
            }
        } else if id == 3 || id == 4 || id == 8 || id == 9 {
            Ok(MsgModel::Ignored(id))
        } else {
            Err(WireFault::UnknownId(id))
        }
    }
}

/// Reads the message in a body (the bytes after the length prefix).
pub fn parse_message(body: &[u8]) -> (r: Result<Message, WireError>)
    ensures
        match parse_spec(body@) {
            Ok(m) => r matches Ok(x) && x@ == m,
            Err(f) => r matches Err(e) && e@ == f,
        },
{
    if body.len() == 0 {
        return Ok(Message::KeepAlive);
    }
    let id = body[0];
    let ghost payload = body@.drop_first();
    if id == 0 {
        Ok(Message::Choke)
    } else if id == 1 {
        Ok(Message::Unchoke)
    } else if id == 2 {
        Ok(Message::Interested)
    } else if id == 5 {
        Ok(Message::Bitfield)
    } else if id == 6 {
        if body.len() == 13 {
            let index = read_be32(body, 1);
            let begin = read_be32(body, 5);
            let length = read_be32(body, 9);
            Ok(Message::Request { index, begin, length })
        } else {
            Err(WireError::Malformed)
        }
    } else if id == 7 {
        let p = copy_range(body, 1, body.len());
        assert(p@ =~= payload);
        Ok(Message::Piece { payload: p })
    } else if id == 20 {
        if body.len() < 2 {
            return Err(WireError::EmptyExtended);
        }
        let ext = body[1];
        let rest = copy_range(body, 2, body.len());
        assert(rest@ =~= payload.drop_first());
        match decode_bencode(rest.as_slice()) {
            Err(e) => Err(WireError::Bencode(e)),
            Ok((n, v)) => {
                if ext == 0 {
                    Ok(Message::ExtendedHandshake(v))
                } else {
                    let tail = copy_range(rest.as_slice(), n, rest.len());
                    Ok(Message::ReceiveMetaData { ext_msg_id: ext, dict: v, payload: tail })
                }
            },
        }
    } else if id == 3 || id == 4 || id == 8 || id == 9 {
        Ok(Message::Ignored(id))
    } else {
        Err(WireError::UnknownId(id))
    }
}

/// The mappings a message carries are well formed, so that they have a canonical encoding.
pub open spec fn msg_wf(m: MsgModel) -> bool {
    match m {
        MsgModel::ExtendedHandshake(v) => v.wf(),
        MsgModel::ReceiveMetaData { dict, .. } => dict.wf(),
        _ => true,
    }
}

/// The framed bytes of a message; `None` when its body is too long for the 32-bit prefix.
pub fn encode_message(msg: &Message) -> (r: Option<Vec<u8>>)
    requires
        msg_wf(msg@),
    ensures
        body_spec(msg@).len() <= u32::MAX ==> (r matches Some(b) && b@ == frame_spec(msg@)),
        body_spec(msg@).len() > u32::MAX ==> r is None,
{
    let mut body: Vec<u8> = Vec::new();
    match msg {
        Message::KeepAlive => {},
        Message::Choke => {
            body.push(0);
        },
        Message::Unchoke => {
            body.push(1);
        },
        Message::Interested => {
            body.push(2);
        },
        Message::Bitfield => {
            body.push(5);
        },
        Message::Request { index, begin, length } => {
            body.push(6);
            push_be32(&mut body, *index);
            push_be32(&mut body, *begin);
            push_be32(&mut body, *length);
        },
        Message::Piece { payload } => {
            body.push(7);
            push_all(&mut body, payload.as_slice());
        },
        Message::ExtendedHandshake(v) => {
            body.push(20);
            body.push(0);
            let e = encode_bvalue(v);
            push_all(&mut body, e.as_slice());
        },
        Message::ReceiveMetaData { ext_msg_id, dict, payload } => {
            body.push(20);
            body.push(*ext_msg_id);
            let e = encode_bvalue(dict);
            push_all(&mut body, e.as_slice());
            push_all(&mut body, payload.as_slice());
        },
        Message::RequestMetaData { ext_msg_id, payload } => {
            body.push(20);
            body.push(*ext_msg_id);
            push_all(&mut body, payload.as_slice());
        },
        Message::Ignored(id) => {
            body.push(*id);
        },
    }
    assert(body@ =~= body_spec(msg@));
    if body.len() > u32::MAX as usize {
        return None;
    }
    let mut out: Vec<u8> = Vec::new();
    push_be32(&mut out, body.len() as u32);
    push_all(&mut out, body.as_slice());
    Some(out)
}

} // verus!
