use vstd::prelude::*;
use crate::decode::dec_value;
use crate::decode::decode_bencode;
use crate::encode::{enc, encode_bvalue};
use crate::hash::{digest_eq, sha1_digest, sha1_of};
use crate::pieces::{
    PieceError, PieceManager, PieceOutcome, assembled, block_index, block_request, refusal,
};
use crate::scheduler::{PieceQueue, QueueModel, released};
use crate::torrent::{
    InfoModel, MetaFault, MetainfoError, TorrentInfo, ceil_div, field_uint, info_model, uint_field,
};
use crate::value::{BValue, Value, bytes_lt, keys_sorted, dict_get, dict_lookup, entries_view};
use crate::wire::{
    HandshakeError, Message, MsgModel, body_spec, msg_wf, encode_message, frame_spec, handshake_parse,
    parse_handshake,
};

verus! {

/// The extension id this client assigns to `ut_metadata`.
pub const LOCAL_METADATA_ID: u8 = 20;

pub open spec fn key_m() -> Seq<u8> {
    seq![109u8]
}

pub open spec fn key_ut_metadata() -> Seq<u8> {
    seq![117u8, 116, 95, 109, 101, 116, 97, 100, 97, 116, 97]
}

pub open spec fn key_msg_type() -> Seq<u8> {
    seq![109u8, 115, 103, 95, 116, 121, 112, 101]
}

pub open spec fn key_piece() -> Seq<u8> {
    seq![112u8, 105, 101, 99, 101]
}

/// `{m: {ut_metadata: 20}}`: the extension handshake this client sends.
pub open spec fn extension_handshake_model() -> MsgModel {
    MsgModel::ExtendedHandshake(
        Value::Dict(
            seq![(key_m(), Value::Dict(seq![(key_ut_metadata(), Value::Int(LOCAL_METADATA_ID as int))]))],
        ),
    )
}

/// `{msg_type: 0, piece: 0}` sent to the remote's metadata extension id.
pub open spec fn metadata_request_model(id: u8) -> MsgModel {
    MsgModel::RequestMetaData {
        ext_msg_id: id,
        payload: enc(
            Value::Dict(
                seq![(key_msg_type(), Value::Int(0)), (key_piece(), Value::Int(0))],
            ),
        ),
    }
}

/// The id a remote extension handshake assigns to `ut_metadata`, when it is in 1..=255.
pub open spec fn metadata_id(v: Value) -> Option<u8> {
    match v {
        Value::Dict(es) => match dict_get(es, key_m()) {
            Some(Value::Dict(m)) => match dict_get(m, key_ut_metadata()) {
                Some(Value::Int(n)) => if 1 <= n <= 255 {
                    Some(n as u8)
                } else {
                    None
                },
                _ => None,
            },
            _ => None,
        },
        _ => None,
    }
}

/// What a session does next.
#[derive(Debug, PartialEq, Eq)]
pub enum Action {
    /// Send these framed messages, then read the next message.
    Send(Vec<Vec<u8>>),
    /// Read the next message.
    Wait,
    /// Write the verified piece at `offset`, mark it complete in the queue, and end.
    Write { index: u32, offset: u64, data: Vec<u8> },
    /// The descriptor was received and checked against the info-hash; end.
    MetadataReady,
}

/// Why a session ends in failure.
#[derive(Debug, PartialEq, Eq)]
pub enum SessionError {
    Handshake(HandshakeError),
    /// A piece message or unchoke arrived before any descriptor was known.
    NoDescriptor,
    Piece(PieceError),
    /// The remote extension handshake names no usable `ut_metadata` id.
    NoMetadataId,
    /// The remote answered the metadata request with something else than data.
    MetadataRefused,
    Metadata(MetainfoError),
    /// The received descriptor does not hash to the session's info-hash.
    InfoHashMismatch,
    /// A message too long for its 32-bit length prefix.
    Frame,
}

/// The descriptor in a metadata data message, checked against the info-hash.
pub open spec fn metadata_outcome(dict: Value, payload: Seq<u8>, info_hash: Seq<u8>) -> Result<InfoModel, SessionFault> {
    match dict {
        Value::Dict(es) => match uint_field(es, key_msg_type()) {
            Err(f) => Err(SessionFault::Metadata(f)),
            Ok(t) => match uint_field(es, key_piece()) {
                Err(f) => Err(SessionFault::Metadata(f)),
                Ok(_) => if t != 1 {
                    Err(SessionFault::MetadataRefused)
                } else {
                    match dec_value(payload, 0) {
                        Err(f) => Err(SessionFault::Metadata(MetaFault::Decode(f))),
                        Ok((_, v)) => match v {
                            Value::Dict(ie) => match info_model(ie) {
                                Err(f) => Err(SessionFault::Metadata(f)),
                                Ok(m) => if sha1_of(enc(v)) == info_hash {
                                    Ok(m)
                                } else {
                                    Err(SessionFault::InfoHashMismatch)
                                },
                            },
                            _ => Err(SessionFault::Metadata(MetaFault::NotADictionary)),
                        },
                    }
                },
            },
        },
        _ => Err(SessionFault::Metadata(MetaFault::NotADictionary)),
    }
}

pub enum SessionFault {
    Handshake(HandshakeError),
    NoDescriptor,
    Piece(PieceError),
    NoMetadataId,
    MetadataRefused,
    Metadata(MetaFault),
    InfoHashMismatch,
    Frame,
}

impl View for SessionError {
    type V = SessionFault;

    open spec fn view(&self) -> SessionFault {
        match self {
            SessionError::Handshake(e) => SessionFault::Handshake(*e),
            SessionError::NoDescriptor => SessionFault::NoDescriptor,
            SessionError::Piece(e) => SessionFault::Piece(*e),
            SessionError::NoMetadataId => SessionFault::NoMetadataId,
            SessionError::MetadataRefused => SessionFault::MetadataRefused,
            SessionError::Metadata(e) => SessionFault::Metadata(e@),
            SessionError::InfoHashMismatch => SessionFault::InfoHashMismatch,
            SessionError::Frame => SessionFault::Frame,
        }
    }
}

/// The action of sending one message: its frame, or `Frame` when it is too long.
pub open spec fn send_one(r: Result<Action, SessionError>, m: MsgModel) -> bool {
    if body_spec(m).len() <= u32::MAX {
        r matches Ok(Action::Send(fs)) && fs.len() == 1 && fs[0]@ == frame_spec(m)
    } else {
        r matches Err(SessionError::Frame)
    }
}

/// The session's answer to a block of piece `index` that has gathered `buf`, in the
/// terms of `assembled`.
pub open spec fn piece_answer(
    info: InfoModel,
    buf: Seq<u8>,
    index: u32,
    full_file: bool,
    r: Result<Action, SessionError>,
) -> bool {
    if buf.len() < info.piece_size(index as nat) {
        r == Ok::<Action, SessionError>(Action::Wait)
    } else if sha1_of(buf) == info.pieces[index as int] {
        r matches Ok(Action::Write { index: i, offset, data }) && i == index && data@ == buf
            && offset == info.write_offset(index as nat, full_file)
    } else {
        r == Err::<Action, SessionError>(SessionError::Piece(PieceError::Corrupt(index)))
    }
}

/// Piece `index` asked for, block by block, as frames.
pub open spec fn unchoke_answer(
    pm: Option<PieceManager>,
    index: u32,
    r: Result<Action, SessionError>,
) -> bool {
    match pm {
        None => r == Err::<Action, SessionError>(SessionError::NoDescriptor),
        Some(m) => if index < m.torrent_info@.pieces.len() {
            let size = m.torrent_info@.piece_size(index as nat);
            &&& (r matches Ok(Action::Send(fs)) && fs.len() == ceil_div(size, 16384) && forall|
                j: int,
            | 0 <= j < fs.len() ==> (#[trigger] fs[j])@ == frame_spec(block_request(index, size, j)))
        } else {
            r == Err::<Action, SessionError>(SessionError::Piece(PieceError::UnknownPiece(index)))
        },
    }
}

/// A `piece` message handed to the assembler, in the terms of `assembled`.
pub open spec fn piece_step(
    o: Option<PieceManager>,
    f: Option<PieceManager>,
    payload: Seq<u8>,
    full_file: bool,
    r: Result<Action, SessionError>,
) -> bool {
    match o {
        None => r == Err::<Action, SessionError>(SessionError::NoDescriptor) && f == o,
        Some(m) => {
            let info = m.torrent_info@;
            let i = block_index(payload);
            let buf = m.buffer(i) + payload.skip(8);
            &&& f matches Some(fm) && fm.torrent_info == m.torrent_info
            &&& (f matches Some(fm) && forall|j: u32|
                j != i ==> #[trigger] fm.buffer(j) == m.buffer(j))
            &&& if !crate::pieces::accepted(payload, info.pieces.len()) {
                &&& r == match refusal(payload) {
                    Err(e) => Err::<Action, SessionError>(SessionError::Piece(e)),
                    Ok(_) => Ok(Action::Wait),
                }
                &&& (f matches Some(fm) && fm.buffer(i) == m.buffer(i))
            } else {
                &&& piece_answer(info, buf, i, full_file, r)
                &&& (f matches Some(fm) && fm.buffer(i) == if buf.len() < info.piece_size(
                    i as nat,
                ) {
                    buf
                } else {
                    Seq::<u8>::empty()
                })
            }
        },
    }
}

/// The queue after the assembler's part of a step: a corrupt piece is released.
pub open spec fn after_assembly(q: QueueModel, r: Result<Action, SessionError>) -> QueueModel {
    match r {
        Err(SessionError::Piece(PieceError::Corrupt(i))) => released(q, i),
        _ => q,
    }
}

/// The queue after a session step on piece `p`: a step that fails gives `p` back, and a
/// corrupt piece as well.
pub open spec fn queue_after(q: QueueModel, r: Result<Action, SessionError>, p: u32) -> QueueModel {
    if r is Err {
        released(after_assembly(q, r), p)
    } else {
        q
    }
}

/// The remote's extension handshake: its metadata id is recorded, then either the
/// descriptor is requested or interest is declared.
pub open spec fn extension_answer(
    v: Value,
    fetch: bool,
    id_after: Option<u8>,
    id_before: Option<u8>,
    r: Result<Action, SessionError>,
) -> bool {
    match metadata_id(v) {
        None => r == Err::<Action, SessionError>(SessionError::NoMetadataId) && id_after
            == id_before,
        Some(id) => id_after == Some(id) && send_one(
            r,
            if fetch {
                metadata_request_model(id)
            } else {
                MsgModel::Interested
            },
        ),
    }
}

/// A metadata message: one for another extension is left alone; ours installs the
/// descriptor when it is sound, and fails otherwise.
pub open spec fn metadata_answer(
    o: Option<PieceManager>,
    f: Option<PieceManager>,
    ext_msg_id: u8,
    outcome: Result<InfoModel, SessionFault>,
    r: Result<Action, SessionError>,
) -> bool {
    if ext_msg_id != LOCAL_METADATA_ID {
        r == Ok::<Action, SessionError>(Action::Wait) && f == o
    } else {
        match outcome {
            Ok(m) => r == Ok::<Action, SessionError>(Action::MetadataReady) && (f matches Some(
                pm,
            ) && pm.torrent_info@ == m),
            Err(fault) => (r matches Err(e) && e@ == fault) && f == o,
        }
    }
}

/// One connection's protocol state. The caller runs the I/O: it reads a message, hands
/// it to `on_message`, and carries out the returned action.
pub struct Peer {
    pub peer_id: [u8; 20],
    pub remote_peer_id: Option<[u8; 20]>,
    pub info_hash: [u8; 20],
    pub piece_manager: Option<PieceManager>,
    pub remote_supports_extensions: bool,
    /// Whether this side advertised the extension protocol in its handshake.
    pub local_supports_extensions: bool,
    /// The id the remote assigned to `ut_metadata`, once its extension handshake came.
    pub metadata_ext_id: Option<u8>,
}

impl Peer {
    /// Any descriptor the session holds is well formed.
    pub open spec fn wf(&self) -> bool {
        self.piece_manager matches Some(m) ==> m.torrent_info@.wf()
    }

    /// A session for the swarm `info_hash`, with its descriptor if it is known.
    pub fn new(info_hash: [u8; 20], peer_id: [u8; 20], torrent_info: Option<TorrentInfo>) -> (r: Peer)
        ensures
            r.info_hash == info_hash,
            r.peer_id == peer_id,
            r.remote_peer_id is None,
            !r.remote_supports_extensions,
            !r.local_supports_extensions,
            r.metadata_ext_id is None,
            match torrent_info {
                Some(t) => r.piece_manager matches Some(m) && m.torrent_info == t && forall|
                    i: u32,
                | #[trigger] m.buffer(i) == Seq::<u8>::empty(),
                None => r.piece_manager is None,
            },
    {
        let piece_manager = match torrent_info {
            Some(info) => Some(PieceManager::new(info)),
            None => None,
        };
        Peer {
            peer_id,
            remote_peer_id: None,
            info_hash,
            piece_manager,
            remote_supports_extensions: false,
            local_supports_extensions: false,
            metadata_ext_id: None,
        }
    }

    /// The session's descriptor.
    pub fn get_torrent_info(&self) -> (r: Result<&TorrentInfo, SessionError>)
        ensures
            match self.piece_manager {
                Some(m) => r matches Ok(t) && *t == m.torrent_info,
                None => r matches Err(SessionError::NoDescriptor),
            },
    {
        match &self.piece_manager {
            Some(m) => Ok(&m.torrent_info),
            None => Err(SessionError::NoDescriptor),
        }
    }

    /// Takes the remote handshake, after this side sent its own with `extension` set as
    /// given: records the remote id and whether both sides speak the extension protocol.
    pub fn on_handshake(&mut self, buf: &[u8], extension: bool) -> (r: Result<(), SessionError>)
        ensures
            final(self).info_hash == old(self).info_hash,
            final(self).peer_id == old(self).peer_id,
            final(self).piece_manager == old(self).piece_manager,
            final(self).metadata_ext_id == old(self).metadata_ext_id,
            match handshake_parse(buf@, old(self).info_hash@) {
                Ok((id, ext)) => {
                    &&& r is Ok
                    &&& final(self).remote_peer_id matches Some(x) && x@ == id
                    &&& final(self).remote_supports_extensions == ext
                    &&& final(self).local_supports_extensions == extension
                },
                Err(e) => r == Err::<(), SessionError>(SessionError::Handshake(e)) && *final(self)
                    == *old(self),
            },
    {
        match parse_handshake(buf, &self.info_hash) {
            Ok((id, ext)) => {
                self.remote_peer_id = Some(id);
                self.remote_supports_extensions = ext;
                self.local_supports_extensions = extension;
                Ok(())
            },
            Err(e) => Err(SessionError::Handshake(e)),
        }
    }
}

fn send_message_action(m: Message) -> (r: Result<Action, SessionError>)
    requires
        msg_wf(m@),
    ensures
        send_one(r, m@),
{
    match encode_message(&m) {
        Some(f) => Ok(Action::Send(vec![f])),
        None => Err(SessionError::Frame),
    }
}

fn key_bytes_m() -> (r: Vec<u8>)
    ensures
        r@ == key_m(),
{
    vec![109u8]
}

fn key_bytes_ut_metadata() -> (r: Vec<u8>)
    ensures
        r@ == key_ut_metadata(),
{
    vec![117u8, 116, 95, 109, 101, 116, 97, 100, 97, 116, 97]
}

fn key_bytes_msg_type() -> (r: Vec<u8>)
    ensures
        r@ == key_msg_type(),
{
    vec![109u8, 115, 103, 95, 116, 121, 112, 101]
}

fn key_bytes_piece() -> (r: Vec<u8>)
    ensures
        r@ == key_piece(),
{
    vec![112u8, 105, 101, 99, 101]
}

/// The extension handshake this client sends: `{m: {ut_metadata: 20}}`.
pub fn extension_handshake() -> (r: Message)
    ensures
        r@ == extension_handshake_model(),
        msg_wf(r@),
{
    let mut inner: Vec<(Vec<u8>, BValue)> = Vec::new();
    inner.push((key_bytes_ut_metadata(), BValue::Integer(20)));
    let ghost iv = BValue::Dict(inner)@;
    assert(entries_view(inner@)[0] == (key_ut_metadata(), Value::Int(20)));
    let mut outer: Vec<(Vec<u8>, BValue)> = Vec::new();
    outer.push((key_bytes_m(), BValue::Dict(inner)));
    assert(entries_view(outer@)[0] == (key_m(), iv));
    let v = BValue::Dict(outer);
    assert(iv->Dict_0 =~= seq![(key_ut_metadata(), Value::Int(20))]);
    assert(v@->Dict_0 =~= seq![(key_m(), iv)]);
    assert(Value::Int(20).wf());
    assert(iv->Dict_0[0].1 == Value::Int(20));
    assert(iv.wf());
    assert(v@->Dict_0[0].1 == iv);
    assert(v@.wf());
    Message::ExtendedHandshake(v)
}

fn metadata_request(id: u8) -> (r: Message)
    ensures
        r@ == metadata_request_model(id),
{
    let mut es: Vec<(Vec<u8>, BValue)> = Vec::new();
    es.push((key_bytes_msg_type(), BValue::Integer(0)));
    es.push((key_bytes_piece(), BValue::Integer(0)));
    assert(entries_view(es@)[0] == (key_msg_type(), Value::Int(0)));
    assert(entries_view(es@)[1] == (key_piece(), Value::Int(0)));
    let v = BValue::Dict(es);
    assert(v@->Dict_0 =~= seq![(key_msg_type(), Value::Int(0)), (key_piece(), Value::Int(0))]);
    assert(bytes_lt(key_msg_type(), key_piece()));
    assert(Value::Int(0).wf());
    assert(v@->Dict_0[0].1 == Value::Int(0) && v@->Dict_0[1].1 == Value::Int(0));
    assert(keys_sorted(v@->Dict_0));
    assert(v@.wf());
    let payload = encode_bvalue(&v);
    Message::RequestMetaData { ext_msg_id: id, payload }
}

/// Reads the remote's `ut_metadata` id from its extension handshake.
fn find_metadata_id(v: &BValue) -> (r: Option<u8>)
    ensures
        r == metadata_id(v@),
{
    match v {
        BValue::Dict(es) => match dict_lookup(es, key_bytes_m().as_slice()) {
            Some(BValue::Dict(m)) => match dict_lookup(m, key_bytes_ut_metadata().as_slice()) {
                Some(BValue::Integer(n)) => {
                    if 1 <= *n && *n <= 255 {
                        Some(*n as u8)
                    } else {
                        None
                    }
                },
                _ => None,
            },
            _ => None,
        },
        _ => None,
    }
}

/// Reads and checks the descriptor carried by a metadata data message.
fn receive_metadata(dict: &BValue, payload: &[u8], info_hash: &[u8; 20]) -> (r: Result<
    TorrentInfo,
    SessionError,
>)
    ensures
        match metadata_outcome(dict@, payload@, info_hash@) {
            Ok(m) => r matches Ok(t) && t@ == m && t@.wf(),
            Err(f) => r matches Err(e) && e@ == f,
        },
{
    let es = match dict {
        BValue::Dict(es) => es,
        _ => {
            return Err(SessionError::Metadata(MetainfoError::NotADictionary));
        },
    };
    let t = match field_uint(es, key_bytes_msg_type().as_slice()) {
        Ok(t) => t,
        Err(e) => {
            return Err(SessionError::Metadata(e));
        },
    };
    match field_uint(es, key_bytes_piece().as_slice()) {
        Ok(_) => {},
        Err(e) => {
            return Err(SessionError::Metadata(e));
        },
    }
    if t != 1 {
        return Err(SessionError::MetadataRefused);
    }
    let v = match decode_bencode(payload) {
        Ok((_, v)) => v,
        Err(e) => {
            return Err(SessionError::Metadata(MetainfoError::Decode(e)));
        },
    };
    let ie = match &v {
        BValue::Dict(ie) => ie,
        _ => {
            return Err(SessionError::Metadata(MetainfoError::NotADictionary));
        },
    };
    let info = match TorrentInfo::from_bvalue(ie) {
        Ok(info) => info,
        Err(e) => {
            return Err(SessionError::Metadata(e));
        },
    };
    let encoded = encode_bvalue(&v);
    let digest = sha1_digest(encoded.as_slice());
    if !digest_eq(&digest, info_hash) {
        return Err(SessionError::InfoHashMismatch);
    }
    Ok(info)
}

/// What one session step does to the session, message kind by message kind.
pub open spec fn step_spec(
    o: Peer,
    f: Peer,
    msg: MsgModel,
    piece_index: u32,
    want_metadata: bool,
    full_file: bool,
    r: Result<Action, SessionError>,
) -> bool {
    &&& f.wf()
    &&& f.info_hash == o.info_hash
    &&& f.peer_id == o.peer_id
    &&& f.remote_peer_id == o.remote_peer_id
    &&& f.remote_supports_extensions == o.remote_supports_extensions
    &&& f.local_supports_extensions == o.local_supports_extensions
    &&& (!(msg is ExtendedHandshake) ==> f.metadata_ext_id == o.metadata_ext_id)
    &&& (!(msg is Piece) && !(msg is ReceiveMetaData) ==> f.piece_manager == o.piece_manager)
    &&& (msg is Bitfield ==> send_one(
        r,
        if o.local_supports_extensions && o.remote_supports_extensions {
            extension_handshake_model()
        } else {
            MsgModel::Interested
        },
    ))
    &&& (msg is Unchoke ==> unchoke_answer(o.piece_manager, piece_index, r))
    &&& (msg matches MsgModel::Piece { payload } ==> piece_step(
        o.piece_manager,
        f.piece_manager,
        payload,
        full_file,
        r,
    ))
    &&& (msg matches MsgModel::ExtendedHandshake(v) ==> extension_answer(
        v,
        want_metadata && o.piece_manager is None,
        f.metadata_ext_id,
        o.metadata_ext_id,
        r,
    ))
    &&& (msg matches MsgModel::ReceiveMetaData { ext_msg_id, dict, payload } ==> metadata_answer(
        o.piece_manager,
        f.piece_manager,
        ext_msg_id,
        metadata_outcome(dict, payload, o.info_hash@),
        r,
    ))
    &&& (msg is KeepAlive || msg is Choke || msg is Interested || msg is Request
        || msg is RequestMetaData || msg is Ignored ==> r == Ok::<Action, SessionError>(
        Action::Wait,
    ))
}

impl Peer {
    /// The step itself; `on_message` adds the release of the assigned piece on failure.
    fn step(
        &mut self,
        msg: Message,
        piece_index: u32,
        want_metadata: bool,
        piece_queue: &mut PieceQueue,
        full_file: bool,
    ) -> (r: Result<Action, SessionError>)
        requires
            old(self).wf(),
        ensures
            step_spec(*old(self), *final(self), msg@, piece_index, want_metadata, full_file, r),
            final(piece_queue)@ == after_assembly(old(piece_queue)@, r),
    {
        match msg {
            Message::Bitfield => {
                if self.local_supports_extensions && self.remote_supports_extensions {
                    send_message_action(extension_handshake())
                } else {
                    send_message_action(Message::Interested)
                }
            },
            Message::Unchoke => {
                match &self.piece_manager {
                    None => Err(SessionError::NoDescriptor),
                    Some(m) => {
                        if piece_index as usize >= m.torrent_info.pieces.len() {
                            return Err(SessionError::Piece(PieceError::UnknownPiece(piece_index)));
                        }
                        let reqs = m.request_blocks(piece_index);
                        let ghost size = m.torrent_info@.piece_size(piece_index as nat);
                        let mut frames: Vec<Vec<u8>> = Vec::new();
                        let mut j: usize = 0;
                        while j < reqs.len()
                            invariant
                                j <= reqs.len(),
                                frames.len() == j,
                                forall|t: int|
                                    0 <= t < reqs.len() ==> (#[trigger] reqs@[t])@ == block_request(
                                        piece_index,
                                        size,
                                        t,
                                    ),
                                forall|t: int|
                                    0 <= t < j ==> (#[trigger] frames@[t])@ == frame_spec(
                                        block_request(piece_index, size, t),
                                    ),
                            decreases reqs.len() - j,
                        {
                            match encode_message(&reqs[j]) {
                                Some(f) => {
                                    frames.push(f);
                                },
                                None => {
                                    return Err(SessionError::Frame);
                                },
                            }
                            j += 1;
                        }
                        Ok(Action::Send(frames))
                    },
                }
            },
            Message::Piece { payload } => {
                match &mut self.piece_manager {
                    None => Err(SessionError::NoDescriptor),
                    Some(m) => {
                        match m.handle_piece(payload.as_slice(), piece_queue, full_file) {
                            Ok(PieceOutcome::Partial) => Ok(Action::Wait),
                            Ok(PieceOutcome::Verified { index, offset, data }) => Ok(
                                Action::Write { index, offset, data },
                            ),
                            Err(e) => Err(SessionError::Piece(e)),
                        }
                    },
                }
            },
            Message::ExtendedHandshake(v) => {
                match find_metadata_id(&v) {
                    None => Err(SessionError::NoMetadataId),
                    Some(id) => {
                        self.metadata_ext_id = Some(id);
                        if want_metadata && self.piece_manager.is_none() {
                            send_message_action(metadata_request(id))
                        } else {
                            send_message_action(Message::Interested)
                        }
                    },
                }
            },
            Message::ReceiveMetaData { ext_msg_id, dict, payload } => {
                if ext_msg_id != LOCAL_METADATA_ID {
                    return Ok(Action::Wait);
                }
                let info = receive_metadata(&dict, payload.as_slice(), &self.info_hash)?;
                self.piece_manager = Some(PieceManager::new(info));
                Ok(Action::MetadataReady)
            },
            _ => Ok(Action::Wait),
        }
    }

    /// Takes one message from the remote and decides what to do next.
    ///
    /// `piece_index` is the piece this session was assigned; `want_metadata` asks for
    /// the descriptor from the remote when the session has none; `full_file` places a
    /// verified piece at its offset in the file rather than at the start.
    pub fn on_message(
        &mut self,
        msg: Message,
        piece_index: u32,
        want_metadata: bool,
        piece_queue: &mut PieceQueue,
        full_file: bool,
    ) -> (r: Result<Action, SessionError>)
        requires
            old(self).wf(),
        ensures
            step_spec(*old(self), *final(self), msg@, piece_index, want_metadata, full_file, r),
            final(piece_queue)@ == queue_after(old(piece_queue)@, r, piece_index),
    {
        let r = self.step(msg, piece_index, want_metadata, piece_queue, full_file);
        if r.is_err() {
            piece_queue.release_piece(piece_index);
        }
        r
    }
}

} // verus!
