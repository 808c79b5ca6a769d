use vstd::prelude::*;
use vstd::string::StringSliceAdditionalSpecFns;
use vstd::utf8::{decode_utf8, encode_utf8, valid_utf8};
use crate::decode::{BencodeError, Fault, copy_range, dec_value, decode_bencode};
use crate::encode::{enc, encode_bvalue};
use crate::hash::{sha1_digest, sha1_of};
use crate::value::{BValue, Value, bytes_lt, keys_sorted, dict_get, dict_lookup, entries_view, lemma_dict_get_wf};

verus! {

pub open spec fn key_announce() -> Seq<u8> {
    seq![97u8, 110, 110, 111, 117, 110, 99, 101]
}

pub open spec fn key_info() -> Seq<u8> {
    seq![105u8, 110, 102, 111]
}

pub open spec fn key_name() -> Seq<u8> {
    seq![110u8, 97, 109, 101]
}

pub open spec fn key_length() -> Seq<u8> {
    seq![108u8, 101, 110, 103, 116, 104]
}

/// `piece length`
pub open spec fn key_piece_length() -> Seq<u8> {
    seq![112u8, 105, 101, 99, 101, 32, 108, 101, 110, 103, 116, 104]
}

pub open spec fn key_pieces() -> Seq<u8> {
    seq![112u8, 105, 101, 99, 101, 115]
}

/// Description of the single file a torrent carries.
#[derive(Debug, Clone)]
pub struct TorrentInfo {
    pub length: usize,
    pub name: String,
    pub piece_length: usize,
    pub pieces: Vec<[u8; 20]>,
}

/// A parsed metainfo file.
#[derive(Debug)]
pub struct Torrent {
    pub announce: String,
    pub info: TorrentInfo,
    pub info_hash: [u8; 20],
}

/// Model of a descriptor.
pub struct InfoModel {
    pub length: nat,
    pub name: Seq<char>,
    pub piece_length: nat,
    pub pieces: Seq<Seq<u8>>,
}

impl View for TorrentInfo {
    type V = InfoModel;

    open spec fn view(&self) -> InfoModel {
        InfoModel {
            length: self.length as nat,
            name: self.name@,
            piece_length: self.piece_length as nat,
            pieces: self.pieces@.map_values(|h: [u8; 20]| h@),
        }
    }
}

pub open spec fn ceil_div(a: nat, b: nat) -> nat {
    if b == 0 {
        0
    } else {
        ((a + b - 1) / (b as int)) as nat
    }
}

impl InfoModel {
    /// Piece length positive and within 32 bits (the wire's offsets), one digest per piece.
    pub open spec fn wf(self) -> bool {
        &&& 0 < self.piece_length <= u32::MAX
        &&& self.length <= i64::MAX
        &&& self.pieces.len() == ceil_div(self.length, self.piece_length)
        &&& self.pieces.len() <= u32::MAX
    }
}

/// Why a descriptor or metainfo file was refused.
#[derive(Debug, PartialEq, Eq)]
pub enum MetainfoError {
    Decode(BencodeError),
    NotADictionary,
    /// A required key (held here) is absent.
    Missing(Vec<u8>),
    /// The key's value has the wrong shape.
    WrongType(Vec<u8>),
    /// The key's byte string is not UTF-8.
    NotText(Vec<u8>),
    /// The key's integer is negative or too large.
    OutOfRange(Vec<u8>),
    /// `piece length` is zero or beyond 32 bits.
    BadPieceLength,
    /// `pieces` is not one 20-byte digest per piece.
    BadPieces,
}

pub enum MetaFault {
    Decode(Fault),
    NotADictionary,
    Missing(Seq<u8>),
    WrongType(Seq<u8>),
    NotText(Seq<u8>),
    OutOfRange(Seq<u8>),
    BadPieceLength,
    BadPieces,
}

impl View for MetainfoError {
    type V = MetaFault;

    open spec fn view(&self) -> MetaFault {
        match self {
            MetainfoError::Decode(e) => MetaFault::Decode(e@),
            MetainfoError::NotADictionary => MetaFault::NotADictionary,
            MetainfoError::Missing(k) => MetaFault::Missing(k@),
            MetainfoError::WrongType(k) => MetaFault::WrongType(k@),
            MetainfoError::NotText(k) => MetaFault::NotText(k@),
            MetainfoError::OutOfRange(k) => MetaFault::OutOfRange(k@),
            MetainfoError::BadPieceLength => MetaFault::BadPieceLength,
            MetainfoError::BadPieces => MetaFault::BadPieces,
        }
    }
}

pub open spec fn bytes_field(es: Seq<(Seq<u8>, Value)>, k: Seq<u8>) -> Result<Seq<u8>, MetaFault> {
    match dict_get(es, k) {
        None => Err(MetaFault::Missing(k)),
        Some(Value::Bytes(b)) => Ok(b),
        Some(_) => Err(MetaFault::WrongType(k)),
    }
}

pub open spec fn text_field(es: Seq<(Seq<u8>, Value)>, k: Seq<u8>) -> Result<Seq<char>, MetaFault> {
    match bytes_field(es, k) {
        Err(e) => Err(e),
        Ok(b) => if valid_utf8(b) {
            Ok(decode_utf8(b))
        } else {
            Err(MetaFault::NotText(k))
        },
    }
}

pub open spec fn uint_field(es: Seq<(Seq<u8>, Value)>, k: Seq<u8>) -> Result<nat, MetaFault> {
    match dict_get(es, k) {
        None => Err(MetaFault::Missing(k)),
        Some(Value::Int(n)) => if 0 <= n <= usize::MAX && n <= i64::MAX {
            Ok(n as nat)
        } else {
            Err(MetaFault::OutOfRange(k))
        },
        Some(_) => Err(MetaFault::WrongType(k)),
    }
}

/// Consecutive 20-byte pieces of `b`.
pub open spec fn chunks20(b: Seq<u8>) -> Seq<Seq<u8>> {
    Seq::new(b.len() / 20, |i: int| b.subrange(20 * i, 20 * i + 20))
}

/// The descriptor that an info mapping describes, or the first thing wrong with it
/// (keys are read in the order name, length, piece length, pieces).
pub open spec fn info_model(es: Seq<(Seq<u8>, Value)>) -> Result<InfoModel, MetaFault> {
    match text_field(es, key_name()) {
        Err(e) => Err(e),
        Ok(name) => match uint_field(es, key_length()) {
            Err(e) => Err(e),
            Ok(length) => match uint_field(es, key_piece_length()) {
                Err(e) => Err(e),
                Ok(pl) => match bytes_field(es, key_pieces()) {
                    Err(e) => Err(e),
                    Ok(pb) => if pl == 0 || pl > u32::MAX {
                        Err(MetaFault::BadPieceLength)
                    } else if pb.len() % 20 != 0 || pb.len() / 20 != ceil_div(length, pl) || pb.len()
                        / 20 > u32::MAX {
                        Err(MetaFault::BadPieces)
                    } else {
                        Ok(InfoModel { length, name, piece_length: pl, pieces: chunks20(pb) })
                    },
                },
            },
        },
    }
}

/// Announce URL, descriptor and info-hash of a metainfo mapping. The info-hash is the
/// digest of the canonical encoding of the `info` mapping.
pub open spec fn torrent_model(v: Value) -> Result<(Seq<char>, InfoModel, Seq<u8>), MetaFault> {
    match v {
        Value::Dict(root) => match text_field(root, key_announce()) {
            Err(e) => Err(e),
            Ok(announce) => match dict_get(root, key_info()) {
                None => Err(MetaFault::Missing(key_info())),
                Some(Value::Dict(ie)) => match info_model(ie) {
                    Err(e) => Err(e),
                    Ok(m) => Ok((announce, m, sha1_of(enc(Value::Dict(ie))))),
                },
                Some(_) => Err(MetaFault::WrongType(key_info())),
            },
        },
        _ => Err(MetaFault::NotADictionary),
    }
}

/// Relies on `String::from_utf8`: it succeeds exactly on valid UTF-8, with the decoded
/// characters.
#[verifier::external_body]
fn utf8_text(bytes: Vec<u8>) -> (r: Option<String>)
    ensures
        r is Some <==> valid_utf8(bytes@),
        r matches Some(s) ==> s@ == decode_utf8(bytes@),
{
    String::from_utf8(bytes).ok()
}

/// `ceil(a / b)` without overflow.
pub fn ceil_div_exec(a: usize, b: usize) -> (r: usize)
    requires
        b > 0,
    ensures
        r == ceil_div(a as nat, b as nat),
{
    let q = a / b;
    let m = a % b;
    proof {
        vstd::arithmetic::div_mod::lemma_fundamental_div_mod(a as int, b as int);
        if m == 0 {
            vstd::arithmetic::div_mod::lemma_fundamental_div_mod_converse(
                a + b - 1,
                b as int,
                q as int,
                b - 1,
            );
        } else {
            assert(a + b - 1 == (q + 1) * b + (m - 1)) by (nonlinear_arith)
                requires
                    a == b * q + m,
            ;
            vstd::arithmetic::div_mod::lemma_fundamental_div_mod_converse(
                a + b - 1,
                b as int,
                q + 1,
                m - 1,
            );
        }
    }
    assert(q * b <= a) by (nonlinear_arith)
        requires
            a == b * q + m,
            m >= 0,
    ;
    if m == 0 {
        q
    } else {
        assert(q < a) by (nonlinear_arith)
            requires
                a == b * q + m,
                m > 0,
                b > 0,
                q >= 0,
        ;
        q + 1
    }
}

fn field_bytes<'a>(es: &'a Vec<(Vec<u8>, BValue)>, key: &[u8]) -> (r: Result<
    &'a Vec<u8>,
    MetainfoError,
>)
    ensures
        match bytes_field(entries_view(es@), key@) {
            Ok(b) => r matches Ok(x) && x@ == b,
            Err(f) => r matches Err(e) && e@ == f,
        },
{
    assert(key@.subrange(0, key@.len() as int) =~= key@);
    match dict_lookup(es, key) {
        None => Err(MetainfoError::Missing(copy_range(key, 0, key.len()))),
        Some(BValue::ByteString(b)) => Ok(b),
        Some(_) => Err(MetainfoError::WrongType(copy_range(key, 0, key.len()))),
    }
}

fn field_text(es: &Vec<(Vec<u8>, BValue)>, key: &[u8]) -> (r: Result<String, MetainfoError>)
    ensures
        match text_field(entries_view(es@), key@) {
            Ok(t) => r matches Ok(x) && x@ == t,
            Err(f) => r matches Err(e) && e@ == f,
        },
{
    assert(key@.subrange(0, key@.len() as int) =~= key@);
    let b = match field_bytes(es, key) {
        Ok(b) => b,
        Err(e) => {
            return Err(e);
        },
    };
    assert(b@.subrange(0, b@.len() as int) =~= b@);
    match utf8_text(copy_range(b.as_slice(), 0, b.len())) {
        Some(s) => Ok(s),
        None => Err(MetainfoError::NotText(copy_range(key, 0, key.len()))),
    }
}

pub(crate) fn field_uint(es: &Vec<(Vec<u8>, BValue)>, key: &[u8]) -> (r: Result<usize, MetainfoError>)
    ensures
        match uint_field(entries_view(es@), key@) {
            Ok(n) => r matches Ok(x) && x == n,
            Err(f) => r matches Err(e) && e@ == f,
        },
{
    assert(key@.subrange(0, key@.len() as int) =~= key@);
    match dict_lookup(es, key) {
        None => Err(MetainfoError::Missing(copy_range(key, 0, key.len()))),
        Some(BValue::Integer(n)) => {
            if *n < 0 || (*n as u64) > (usize::MAX as u64) {
                Err(MetainfoError::OutOfRange(copy_range(key, 0, key.len())))
            } else {
                Ok(*n as usize)
            }
        },
        Some(_) => Err(MetainfoError::WrongType(copy_range(key, 0, key.len()))),
    }
}

/// The byte string bound to `key`.
pub fn lookup_bytestring<'a>(dict: &'a Vec<(Vec<u8>, BValue)>, key: &str) -> (r: Result<
    &'a Vec<u8>,
    MetainfoError,
>)
    ensures
        match bytes_field(entries_view(dict@), key.spec_bytes()) {
            Ok(b) => r matches Ok(x) && x@ == b,
            Err(f) => r matches Err(e) && e@ == f,
        },
{
    field_bytes(dict, key.as_bytes())
}

/// The UTF-8 text bound to `key`.
pub fn get_bytestring(dict: &Vec<(Vec<u8>, BValue)>, key: &str) -> (r: Result<
    String,
    MetainfoError,
>)
    ensures
        match text_field(entries_view(dict@), key.spec_bytes()) {
            Ok(t) => r matches Ok(x) && x@ == t,
            Err(f) => r matches Err(e) && e@ == f,
        },
{
    field_text(dict, key.as_bytes())
}

/// The non-negative integer bound to `key`.
pub fn get_integer(dict: &Vec<(Vec<u8>, BValue)>, key: &str) -> (r: Result<usize, MetainfoError>)
    ensures
        match uint_field(entries_view(dict@), key.spec_bytes()) {
            Ok(n) => r matches Ok(x) && x == n,
            Err(f) => r matches Err(e) && e@ == f,
        },
{
    field_uint(dict, key.as_bytes())
}

fn split_digests(b: &Vec<u8>) -> (r: Vec<[u8; 20]>)
    requires
        b.len() % 20 == 0,
    ensures
        r@.map_values(|h: [u8; 20]| h@) == chunks20(b@),
{
    let n = b.len() / 20;
    let mut out: Vec<[u8; 20]> = Vec::new();
    let mut i: usize = 0;
    while i < n
        invariant
            n == b.len() / 20,
            b.len() % 20 == 0,
            i <= n,
            out@.len() == i,
            forall|k: int| 0 <= k < i ==> (#[trigger] out@[k])@ == b@.subrange(20 * k, 20 * k + 20),
        decreases n - i,
    {
        assert(20 * i + 20 <= b.len()) by (nonlinear_arith)
            requires
                i < n,
                n == b.len() / 20,
                b.len() % 20 == 0,
        ;
        let mut h = [0u8; 20];
        let base = 20 * i;
        let mut j: usize = 0;
        while j < 20
            invariant
                base == 20 * i,
                base + 20 <= b.len(),
                j <= 20,
                h@.len() == 20,
                forall|t: int| 0 <= t < j ==> h@[t] == b@[base + t],
            decreases 20 - j,
        {
            h[j] = b[base + j];
            j += 1;
        }
        assert(h@ =~= b@.subrange(20 * i, 20 * i + 20));
        out.push(h);
        i += 1;
    }
    assert(out@.map_values(|h: [u8; 20]| h@) =~= chunks20(b@));
    out
}

pub fn key_bytes_name() -> (r: Vec<u8>)
    ensures
        r@ == key_name(),
{
    vec![110u8, 97, 109, 101]
}

pub fn key_bytes_length() -> (r: Vec<u8>)
    ensures
        r@ == key_length(),
{
    vec![108u8, 101, 110, 103, 116, 104]
}

pub fn key_bytes_piece_length() -> (r: Vec<u8>)
    ensures
        r@ == key_piece_length(),
{
    vec![112u8, 105, 101, 99, 101, 32, 108, 101, 110, 103, 116, 104]
}

pub fn key_bytes_pieces() -> (r: Vec<u8>)
    ensures
        r@ == key_pieces(),
{
    vec![112u8, 105, 101, 99, 101, 115]
}

impl TorrentInfo {
    /// Tells whether the descriptor is well formed (see `InfoModel::wf`).
    pub fn is_valid(&self) -> (r: bool)
        ensures
            r == self@.wf(),
    {
        if self.piece_length == 0 || self.piece_length > u32::MAX as usize || (self.length as u64)
            > (i64::MAX as u64) || self.pieces.len() > u32::MAX as usize {
            return false;
        }
        self.pieces.len() == ceil_div_exec(self.length, self.piece_length)
    }

    /// Reads a descriptor from an info mapping.
    pub fn from_bvalue(info_dict: &Vec<(Vec<u8>, BValue)>) -> (r: Result<TorrentInfo, MetainfoError>)
        ensures
            match info_model(entries_view(info_dict@)) {
                Ok(m) => r matches Ok(info) && info@ == m && info@.wf(),
                Err(f) => r matches Err(e) && e@ == f,
            },
    {
        let name = field_text(info_dict, key_bytes_name().as_slice())?;
        let length = field_uint(info_dict, key_bytes_length().as_slice())?;
        let piece_length = field_uint(info_dict, key_bytes_piece_length().as_slice())?;
        let pieces_bytes = field_bytes(info_dict, key_bytes_pieces().as_slice())?;
        if piece_length == 0 || piece_length > u32::MAX as usize {
            return Err(MetainfoError::BadPieceLength);
        }
        let count = pieces_bytes.len() / 20;
        if pieces_bytes.len() % 20 != 0 || count != ceil_div_exec(length, piece_length)
            || count > u32::MAX as usize {
            return Err(MetainfoError::BadPieces);
        }
        let pieces = split_digests(pieces_bytes);
        Ok(TorrentInfo { length, name, piece_length, pieces })
    }
}

/// The info mapping that holds exactly the fields of a descriptor, in key order.
pub open spec fn info_value(m: InfoModel) -> Value {
    Value::Dict(
        seq![
            (key_length(), Value::Int(m.length as int)),
            (key_name(), Value::Bytes(encode_utf8(m.name))),
            (key_piece_length(), Value::Int(m.piece_length as int)),
            (key_pieces(), Value::Bytes(m.pieces.flatten_alt())),
        ],
    )
}

/// What a metainfo file holds: its announce URL, descriptor and info-hash.
pub open spec fn metainfo_model(buf: Seq<u8>) -> Result<(Seq<char>, InfoModel, Seq<u8>), MetaFault> {
    match dec_value(buf, 0) {
        Err(f) => Err(MetaFault::Decode(f)),
        Ok((_, v)) => torrent_model(v),
    }
}

pub fn key_bytes_announce() -> (r: Vec<u8>)
    ensures
        r@ == key_announce(),
{
    vec![97u8, 110, 110, 111, 117, 110, 99, 101]
}

pub fn key_bytes_info() -> (r: Vec<u8>)
    ensures
        r@ == key_info(),
{
    vec![105u8, 110, 102, 111]
}

/// Builds the info mapping of a descriptor.
pub fn info_to_bvalue(info: &TorrentInfo) -> (r: BValue)
    requires
        info.length <= i64::MAX,
        info.piece_length <= i64::MAX,
    ensures
        r@ == info_value(info@),
{
    let name = info.name.as_str().as_bytes();
    let name_bytes = copy_range(name, 0, name.len());
    let ghost pv = info@.pieces;
    let mut concat: Vec<u8> = Vec::new();
    let mut i: usize = 0;
    assert(pv.take(0) =~= Seq::<Seq<u8>>::empty());
    while i < info.pieces.len()
        invariant
            i <= info.pieces.len(),
            pv == info@.pieces,
            concat@ == pv.take(i as int).flatten_alt(),
        decreases info.pieces.len() - i,
    {
        let h = &info.pieces[i];
        let ghost start = concat@;
        let mut j: usize = 0;
        while j < 20
            invariant
                j <= 20,
                h@.len() == 20,
                concat@ == start + h@.take(j as int),
            decreases 20 - j,
        {
            concat.push(h[j]);
            assert(h@.take(j + 1) =~= h@.take(j as int).push(h@[j as int]));
            j += 1;
        }
        assert(h@.take(20) =~= h@);
        assert(pv.take(i + 1).drop_last() =~= pv.take(i as int));
        assert(pv[i as int] == h@);
        i += 1;
    }
    assert(pv.take(i as int) =~= pv);
    let mut es: Vec<(Vec<u8>, BValue)> = Vec::new();
    es.push((key_bytes_length(), BValue::Integer(info.length as i64)));
    es.push((key_bytes_name(), BValue::ByteString(name_bytes)));
    es.push((key_bytes_piece_length(), BValue::Integer(info.piece_length as i64)));
    es.push((key_bytes_pieces(), BValue::ByteString(concat)));
    assert(name@.subrange(0, name@.len() as int) =~= name@);
    let ghost ev = entries_view(es@);
    assert(ev[0] == (key_length(), Value::Int(info.length as int)));
    assert(name@ == encode_utf8(info.name@));
    assert(ev[1] == (key_name(), Value::Bytes(encode_utf8(info.name@))));
    assert(ev[2] == (key_piece_length(), Value::Int(info.piece_length as int)));
    assert(ev[3] == (key_pieces(), Value::Bytes(pv.flatten_alt())));
    let r = BValue::Dict(es);
    assert(r@->Dict_0 =~= info_value(info@)->Dict_0);
    r
}

/// The info mapping of a descriptor is well formed: its keys are in increasing order.
pub proof fn lemma_info_value_wf(m: InfoModel)
    requires
        m.length <= i64::MAX,
        m.piece_length <= i64::MAX,
    ensures
        info_value(m).wf(),
{
    reveal_with_fuel(bytes_lt, 8);
    let es = info_value(m)->Dict_0;
    assert(bytes_lt(key_length(), key_name()));
    assert(bytes_lt(key_length(), key_piece_length()));
    assert(bytes_lt(key_length(), key_pieces()));
    assert(bytes_lt(key_name(), key_piece_length()));
    assert(bytes_lt(key_name(), key_pieces()));
    assert(bytes_lt(key_piece_length(), key_pieces()));
    assert(es[0].0 == key_length() && es[1].0 == key_name());
    assert(es[2].0 == key_piece_length() && es[3].0 == key_pieces());
    assert forall|i: int, j: int| 0 <= i < j < es.len() implies bytes_lt(es[i].0, es[j].0) by {
        if i == 0 {
            if j == 1 {
            } else if j == 2 {
            } else {
            }
        } else if i == 1 {
            if j == 2 {
            } else {
            }
        }
    }
    assert(keys_sorted(es));
    assert(Value::Int(m.length as int).wf());
    assert(Value::Int(m.piece_length as int).wf());
    assert(Value::Bytes(encode_utf8(m.name)).wf());
    assert(Value::Bytes(m.pieces.flatten_alt()).wf());
    assert forall|i: int| 0 <= i < es.len() implies (#[trigger] es[i]).1.wf() by {
        if i == 0 {
        } else if i == 1 {
        } else if i == 2 {
        } else {
        }
    }
    assert(info_value(m).wf());
}

/// The info-hash of a descriptor: the SHA-1 digest of the canonical encoding of its
/// info mapping.
pub fn calculate_info_hash_from_struct(info: &TorrentInfo) -> (r: [u8; 20])
    requires
        info.length <= i64::MAX,
        info.piece_length <= i64::MAX,
    ensures
        r@ == sha1_of(enc(info_value(info@))),
{
    let v = info_to_bvalue(info);
    proof {
        lemma_info_value_wf(info@);
    }
    let bytes = encode_bvalue(&v);
    sha1_digest(bytes.as_slice())
}

impl Torrent {
    /// Reads a metainfo mapping: the `announce` URL and the `info` descriptor, whose
    /// canonical encoding gives the info-hash.
    pub fn from_bvalue(value: &BValue) -> (r: Result<Torrent, MetainfoError>)
        requires
            value@.wf(),
        ensures
            match torrent_model(value@) {
                Ok((a, m, h)) => r matches Ok(t) && t.announce@ == a && t.info@ == m
                    && t.info_hash@ == h && t.info@.wf(),
                Err(f) => r matches Err(e) && e@ == f,
            },
    {
        let root = match value {
            BValue::Dict(m) => m,
            _ => {
                return Err(MetainfoError::NotADictionary);
            },
        };
        let announce = field_text(root, key_bytes_announce().as_slice())?;
        let info_val = match dict_lookup(root, key_bytes_info().as_slice()) {
            None => {
                return Err(MetainfoError::Missing(key_bytes_info()));
            },
            Some(v) => v,
        };
        proof {
            lemma_dict_get_wf(entries_view(root@), key_info());
        }
        let info_dict = match info_val {
            BValue::Dict(ie) => ie,
            _ => {
                return Err(MetainfoError::WrongType(key_bytes_info()));
            },
        };
        let info = TorrentInfo::from_bvalue(info_dict)?;
        let encoded = encode_bvalue(info_val);
        let info_hash = sha1_digest(encoded.as_slice());
        Ok(Torrent { announce, info, info_hash })
    }

    /// Reads a metainfo file from its bytes.
    pub fn from_bytes(buf: &[u8]) -> (r: Result<Torrent, MetainfoError>)
        ensures
            match metainfo_model(buf@) {
                Ok((a, m, h)) => r matches Ok(t) && t.announce@ == a && t.info@ == m
                    && t.info_hash@ == h && t.info@.wf(),
                Err(f) => r matches Err(e) && e@ == f,
            },
    {
        match decode_bencode(buf) {
            Err(e) => Err(MetainfoError::Decode(e)),
            Ok((_, v)) => Torrent::from_bvalue(&v),
        }
    }
}

} // verus!
