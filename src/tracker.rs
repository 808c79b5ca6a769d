use vstd::prelude::*;
use vstd::utf8::{decode_utf8, valid_utf8};
use crate::decode::{BencodeError, Fault, dec_value, decode_bencode};
use crate::encode::nat_digits;
use crate::url::push_char;
use crate::value::{BValue, Value, dict_get, dict_lookup};

verus! {

/// The text that `String::from_utf8_lossy` makes of some bytes.
pub uninterp spec fn lossy_text(b: Seq<u8>) -> Seq<char>;

/// Relies on `String::from_utf8_lossy`: the result depends on the bytes alone, and
/// valid UTF-8 is decoded as it is.
#[verifier::external_body]
fn lossy_string(b: &[u8]) -> (r: String)
    ensures
        r@ == lossy_text(b@),
        valid_utf8(b@) ==> r@ == decode_utf8(b@),
{
    String::from_utf8_lossy(b).into_owned()
}

pub open spec fn key_peers() -> Seq<u8> {
    seq![112u8, 101, 101, 114, 115]
}

pub open spec fn key_ip() -> Seq<u8> {
    seq![105u8, 112]
}

pub open spec fn key_port() -> Seq<u8> {
    seq![112u8, 111, 114, 116]
}

/// `failure reason`
pub open spec fn key_failure() -> Seq<u8> {
    seq![102u8, 97, 105, 108, 117, 114, 101, 32, 114, 101, 97, 115, 111, 110]
}

/// Why a tracker response was refused.
#[derive(Debug, PartialEq, Eq)]
pub enum TrackerError {
    Decode(BencodeError),
    /// The tracker said why it refused; holds its text.
    Failure(String),
    NotADictionary,
    MissingPeers,
    /// Compact peers whose length is not a multiple of 6.
    BadCompactPeers,
    /// `peers` is neither a byte string nor a list.
    BadPeers,
}

pub enum TrackerFault {
    Decode(Fault),
    Failure(Seq<char>),
    NotADictionary,
    MissingPeers,
    BadCompactPeers,
    BadPeers,
}

impl View for TrackerError {
    type V = TrackerFault;

    open spec fn view(&self) -> TrackerFault {
        match self {
            TrackerError::Decode(e) => TrackerFault::Decode(e@),
            TrackerError::Failure(s) => TrackerFault::Failure(s@),
            TrackerError::NotADictionary => TrackerFault::NotADictionary,
            TrackerError::MissingPeers => TrackerFault::MissingPeers,
            TrackerError::BadCompactPeers => TrackerFault::BadCompactPeers,
            TrackerError::BadPeers => TrackerFault::BadPeers,
        }
    }
}

/// Decimal characters of `n`.
pub open spec fn decimal(n: nat) -> Seq<char> {
    nat_digits(n).map_values(|b: u8| b as char)
}

/// `a.b.c.d` for the four bytes from `i`.
pub open spec fn dotted(b: Seq<u8>, i: int) -> Seq<char> {
    decimal(b[i] as nat) + seq!['.'] + decimal(b[i + 1] as nat) + seq!['.'] + decimal(
        b[i + 2] as nat,
    ) + seq!['.'] + decimal(b[i + 3] as nat)
}

/// Six bytes per peer: four of address, two of port (big-endian).
pub open spec fn compact_peers(b: Seq<u8>) -> Seq<(Seq<char>, u16)> {
    Seq::new(
        b.len() / 6,
        |i: int| (dotted(b, 6 * i), (b[6 * i + 4] * 256 + b[6 * i + 5]) as u16),
    )
}

/// The peer a list entry names: a mapping with `ip` bytes and an integer `port` (kept to
/// its low 16 bits); anything else names none.
pub open spec fn listed_peer(v: Value) -> Seq<(Seq<char>, u16)> {
    match v {
        Value::Dict(d) => match (dict_get(d, key_ip()), dict_get(d, key_port())) {
            (Some(Value::Bytes(ip)), Some(Value::Int(p))) => seq![(lossy_text(ip), p as u16)],
            _ => Seq::empty(),
        },
        _ => Seq::empty(),
    }
}

pub open spec fn listed_peers(items: Seq<Value>) -> Seq<(Seq<char>, u16)>
    decreases items.len(),
{
    if items.len() == 0 {
        Seq::empty()
    } else {
        listed_peers(items.drop_last()) + listed_peer(items.last())
    }
}

/// The peers of a tracker response, in the compact or the listed form.
pub open spec fn peers_model(v: Value) -> Result<Seq<(Seq<char>, u16)>, TrackerFault> {
    match v {
        Value::Dict(d) => match dict_get(d, key_peers()) {
            None => Err(TrackerFault::MissingPeers),
            Some(Value::Bytes(b)) => if b.len() % 6 != 0 {
                Err(TrackerFault::BadCompactPeers)
            } else {
                Ok(compact_peers(b))
            },
            Some(Value::List(items)) => Ok(listed_peers(items)),
            Some(_) => Err(TrackerFault::BadPeers),
        },
        _ => Err(TrackerFault::NotADictionary),
    }
}

/// A whole response: a `failure reason` wins over any peers.
pub open spec fn response_model(buf: Seq<u8>) -> Result<Seq<(Seq<char>, u16)>, TrackerFault> {
    match dec_value(buf, 0) {
        Err(f) => Err(TrackerFault::Decode(f)),
        Ok((_, v)) => match v {
            Value::Dict(d) => match dict_get(d, key_failure()) {
                Some(Value::Bytes(reason)) => Err(TrackerFault::Failure(lossy_text(reason))),
                _ => peers_model(v),
            },
            _ => peers_model(v),
        },
    }
}

pub open spec fn peers_view(v: Seq<(String, u16)>) -> Seq<(Seq<char>, u16)> {
    v.map_values(|p: (String, u16)| (p.0@, p.1))
}

fn push_decimal(out: &mut String, n: u8)
    ensures
        final(out)@ == old(out)@ + decimal(n as nat),
{
    let ghost d = nat_digits(n as nat);
    if n >= 100 {
        push_char(out, (48 + n / 100) as char);
        push_char(out, (48 + n / 10 % 10) as char);
        push_char(out, (48 + n % 10) as char);
        assert(nat_digits((n / 10) as nat) =~= seq![(48 + n / 100) as u8, (48 + n / 10 % 10) as u8]) by {
            assert(nat_digits((n / 100) as nat) =~= seq![(48 + n / 100) as u8]);
        }
    } else if n >= 10 {
        push_char(out, (48 + n / 10) as char);
        push_char(out, (48 + n % 10) as char);
        assert(nat_digits((n / 10) as nat) =~= seq![(48 + n / 10) as u8]);
    } else {
        push_char(out, (48 + n) as char);
    }
    assert(final(out)@ =~= old(out)@ + decimal(n as nat));
}

fn dotted_string(b: &[u8], i: usize) -> (r: String)
    requires
        i + 4 <= b.len(),
    ensures
        r@ == dotted(b@, i as int),
{
    let mut out = String::new();
    push_decimal(&mut out, b[i]);
    push_char(&mut out, '.');
    push_decimal(&mut out, b[i + 1]);
    push_char(&mut out, '.');
    push_decimal(&mut out, b[i + 2]);
    push_char(&mut out, '.');
    push_decimal(&mut out, b[i + 3]);
    assert(out@ =~= dotted(b@, i as int));
    out
}

fn key_bytes(k: u8) -> (r: Vec<u8>)
    requires
        k < 4,
    ensures
        k == 0 ==> r@ == key_peers(),
        k == 1 ==> r@ == key_ip(),
        k == 2 ==> r@ == key_port(),
        k == 3 ==> r@ == key_failure(),
{
    if k == 0 {
        vec![112u8, 101, 101, 114, 115]
    } else if k == 1 {
        vec![105u8, 112]
    } else if k == 2 {
        vec![112u8, 111, 114, 116]
    } else {
        vec![102u8, 97, 105, 108, 117, 114, 101, 32, 114, 101, 97, 115, 111, 110]
    }
}

fn listed_peer_exec(v: &BValue) -> (r: Option<(String, u16)>)
    ensures
        match r {
            Some(p) => listed_peer(v@) == seq![(p.0@, p.1)],
            None => listed_peer(v@) == Seq::<(Seq<char>, u16)>::empty(),
        },
{
    match v {
        BValue::Dict(d) => {
            let ip = match dict_lookup(d, key_bytes(1).as_slice()) {
                Some(BValue::ByteString(ip)) => ip,
                _ => {
                    return None;
                },
            };
            let port = match dict_lookup(d, key_bytes(2).as_slice()) {
                Some(BValue::Integer(p)) => *p as u16,
                _ => {
                    return None;
                },
            };
            Some((lossy_string(ip.as_slice()), port))
        },
        _ => None,
    }
}

/// The peers named by a tracker response mapping.
pub fn parse_peers_from_bvalue(bval: &BValue) -> (r: Result<Vec<(String, u16)>, TrackerError>)
    ensures
        match peers_model(bval@) {
            Ok(ps) => r matches Ok(v) && peers_view(v@) == ps,
            Err(f) => r matches Err(e) && e@ == f,
        },
{
    let dict = match bval {
        BValue::Dict(d) => d,
        _ => {
            return Err(TrackerError::NotADictionary);
        },
    };
    let peers_val = match dict_lookup(dict, key_bytes(0).as_slice()) {
        Some(v) => v,
        None => {
            return Err(TrackerError::MissingPeers);
        },
    };
    match peers_val {
        BValue::ByteString(bytes) => {
            if bytes.len() % 6 != 0 {
                return Err(TrackerError::BadCompactPeers);
            }
            let n = bytes.len() / 6;
            let mut result: Vec<(String, u16)> = Vec::new();
            let mut i: usize = 0;
            while i < n
                invariant
                    n == bytes.len() / 6,
                    bytes.len() % 6 == 0,
                    i <= n,
                    result.len() == i,
                    forall|k: int|
                        0 <= k < i ==> (#[trigger] peers_view(result@)[k]) == compact_peers(
                            bytes@,
                        )[k],
                decreases n - i,
            {
                assert(6 * i + 6 <= bytes.len()) by (nonlinear_arith)
                    requires
                        i < n,
                        n == bytes.len() / 6,
                        bytes.len() % 6 == 0,
                ;
                let ip = dotted_string(bytes.as_slice(), 6 * i);
                let port = (bytes[6 * i + 4] as u16) * 256 + (bytes[6 * i + 5] as u16);
                let ghost before = result@;
                result.push((ip, port));
                assert forall|k: int| 0 <= k < i + 1 implies (#[trigger] peers_view(result@)[k])
                    == compact_peers(bytes@)[k] by {
                    assert(peers_view(result@)[k] == (result@[k].0@, result@[k].1));
                    if k < i {
                        assert(peers_view(before)[k] == (before[k].0@, before[k].1));
                        assert(result@[k] == before[k]);
                    } else {
                        assert(result@[k] == (ip, port));
                        assert(compact_peers(bytes@)[k] == (
                            dotted(bytes@, 6 * k),
                            (bytes@[6 * k + 4] * 256 + bytes@[6 * k + 5]) as u16,
                        ));
                        assert(port == bytes@[6 * k + 4] * 256 + bytes@[6 * k + 5]);
                    }
                }
                i += 1;
            }
            assert(peers_view(result@) =~= compact_peers(bytes@));
            Ok(result)
        },
        BValue::List(list) => {
            let ghost items = peers_val@->List_0;
            let mut result: Vec<(String, u16)> = Vec::new();
            let mut i: usize = 0;
            assert(items.take(0) =~= Seq::<Value>::empty());
            assert(peers_view(result@) =~= Seq::<(Seq<char>, u16)>::empty());
            while i < list.len()
                invariant
                    i <= list.len(),
                    items == peers_val@->List_0,
                    items.len() == list.len(),
                    forall|j: int| 0 <= j < list.len() ==> items[j] == (#[trigger] list@[j])@,
                    peers_view(result@) == listed_peers(items.take(i as int)),
                decreases list.len() - i,
            {
                let ghost before = result@;
                assert(items.take(i + 1).drop_last() =~= items.take(i as int));
                assert(items.take(i + 1).last() == list@[i as int]@);
                match listed_peer_exec(&list[i]) {
                    Some(p) => {
                        result.push(p);
                        assert(peers_view(result@) =~= peers_view(before) + listed_peer(
                            list@[i as int]@,
                        ));
                    },
                    None => {
                        assert(peers_view(result@) =~= peers_view(before) + listed_peer(
                            list@[i as int]@,
                        ));
                    },
                }
                i += 1;
            }
            assert(items.take(i as int) =~= items);
            Ok(result)
        },
        _ => Err(TrackerError::BadPeers),
    }
}

/// The peers in a tracker's response body.
pub fn peers_from_response(body: &[u8]) -> (r: Result<Vec<(String, u16)>, TrackerError>)
    ensures
        match response_model(body@) {
            Ok(ps) => r matches Ok(v) && peers_view(v@) == ps,
            Err(f) => r matches Err(e) && e@ == f,
        },
{
    let v = match decode_bencode(body) {
        Ok((_, v)) => v,
        Err(e) => {
            return Err(TrackerError::Decode(e));
        },
    };
    if let BValue::Dict(d) = &v {
        if let Some(BValue::ByteString(reason)) = dict_lookup(d, key_bytes(3).as_slice()) {
            return Err(TrackerError::Failure(lossy_string(reason.as_slice())));
        }
    }
    parse_peers_from_bvalue(&v)
}

} // verus!
