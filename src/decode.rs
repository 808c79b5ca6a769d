use vstd::prelude::*;
use crate::value::{
    BValue, Value, dict_insert, entries_view, insert_entry, keys_sorted,
};

verus! {

/// Why a bencode input was refused.
#[derive(Debug, PartialEq, Eq)]
pub enum BencodeError {
    /// The input ended inside a value.
    UnexpectedEnd,
    /// An integer literal that is malformed or out of the 64-bit range; holds the literal.
    InvalidInteger(Vec<u8>),
    /// A byte that cannot stand where it is; holds its position in the input.
    InvalidFormat(usize),
}

/// Model of a decoding error.
pub enum Fault {
    End,
    Integer(Seq<u8>),
    Format(int),
}

impl View for BencodeError {
    type V = Fault;

    open spec fn view(&self) -> Fault {
        match self {
            BencodeError::UnexpectedEnd => Fault::End,
            BencodeError::InvalidInteger(lit) => Fault::Integer(lit@),
            BencodeError::InvalidFormat(p) => Fault::Format(*p as int),
        }
    }
}

/// Outcome of decoding: the position just past the value, and the value.
pub type Decoded = Result<(int, Value), Fault>;

pub open spec fn result_view(r: Result<(usize, BValue), BencodeError>) -> Decoded {
    match r {
        Ok((n, v)) => Ok((n as int, v@)),
        Err(e) => Err(e@),
    }
}

pub open spec fn is_digit(b: u8) -> bool {
    48 <= b <= 57
}

pub open spec fn all_digits(d: Seq<u8>) -> bool {
    forall|i: int| 0 <= i < d.len() ==> is_digit(#[trigger] d[i])
}

/// The number that a string of ASCII digits denotes.
pub open spec fn digits_val(d: Seq<u8>) -> nat
    decreases d.len(),
{
    if d.len() == 0 {
        0
    } else {
        digits_val(d.drop_last()) * 10 + (d.last() - 48) as nat
    }
}

/// Digits without a leading zero, except for the single digit `0`.
pub open spec fn canonical_digits(d: Seq<u8>) -> bool {
    d.len() > 0 && all_digits(d) && (d[0] == 48 ==> d.len() == 1)
}

pub const I64_MAG_LIMIT: u64 = 9223372036854775808;

/// The integer that a literal between `i` and `e` denotes, when it is canonical
/// (no leading zero, no `-0`) and fits in 64 signed bits.
pub open spec fn int_value(lit: Seq<u8>) -> Option<int> {
    if canonical_digits(lit) {
        if digits_val(lit) <= i64::MAX {
            Some(digits_val(lit) as int)
        } else {
            None
        }
    } else if lit.len() >= 2 && lit[0] == 45 && canonical_digits(lit.drop_first()) && lit[1]
        != 48 {
        if digits_val(lit.drop_first()) <= I64_MAG_LIMIT {
            Some(-(digits_val(lit.drop_first()) as int))
        } else {
            None
        }
    } else {
        None
    }
}

/// First position at or after `i` that holds `b`.
pub open spec fn find_from(s: Seq<u8>, i: int, b: u8) -> Option<int>
    decreases s.len() - i,
{
    if i < 0 || i >= s.len() {
        None
    } else if s[i] == b {
        Some(i)
    } else {
        find_from(s, i + 1, b)
    }
}

/// An integer `i<literal>e` starting at `p`.
pub open spec fn dec_int(s: Seq<u8>, p: int) -> Decoded {
    match find_from(s, p + 1, 101) {
        None => Err(Fault::Format(p)),
        Some(q) => match int_value(s.subrange(p + 1, q)) {
            Some(x) => Ok((q + 1, Value::Int(x))),
            None => Err(Fault::Integer(s.subrange(p + 1, q))),
        },
    }
}

/// A byte string `<length>:<bytes>` starting at `p`.
pub open spec fn dec_str(s: Seq<u8>, p: int) -> Decoded {
    match find_from(s, p, 58) {
        None => Err(Fault::Format(p)),
        Some(c) => {
            let lit = s.subrange(p, c);
            if lit.len() == 0 || !all_digits(lit) {
                Err(Fault::Format(p))
            } else if digits_val(lit) > s.len() - (c + 1) {
                Err(Fault::End)
            } else {
                Ok(
                    (
                        c + 1 + digits_val(lit),
                        Value::Bytes(s.subrange(c + 1, c + 1 + digits_val(lit))),
                    ),
                )
            }
        },
    }
}

/// The value that starts at position `p` of `s`.
pub open spec fn dec_value(s: Seq<u8>, p: int) -> Decoded
    decreases s.len() - p, 0int,
{
    if p < 0 || p >= s.len() {
        Err(Fault::End)
    } else if s[p] == 105 {
        dec_int(s, p)
    } else if s[p] == 108 {
        dec_items(s, p + 1, Seq::empty())
    } else if s[p] == 100 {
        dec_entries(s, p + 1, Seq::empty())
    } else if is_digit(s[p]) {
        dec_str(s, p)
    } else {
        Err(Fault::Format(p))
    }
}

/// The rest of a list from `p`, after the items `acc`.
pub open spec fn dec_items(s: Seq<u8>, p: int, acc: Seq<Value>) -> Decoded
    decreases s.len() - p, 1int,
{
    if p < 0 || p >= s.len() {
        Err(Fault::Format(s.len() as int))
    } else if s[p] == 101 {
        Ok((p + 1, Value::List(acc)))
    } else {
        match dec_value(s, p) {
            Err(e) => Err(e),
            Ok((q, v)) => if p < q <= s.len() {
                dec_items(s, q, acc.push(v))
            } else {
                Err(Fault::End)
            },
        }
    }
}

/// The rest of a dictionary from `p`, after the entries `acc`. Keys may come in any
/// order; a repeated key keeps its last value.
pub open spec fn dec_entries(s: Seq<u8>, p: int, acc: Seq<(Seq<u8>, Value)>) -> Decoded
    decreases s.len() - p, 1int,
{
    if p < 0 || p >= s.len() {
        Err(Fault::Format(s.len() as int))
    } else if s[p] == 101 {
        Ok((p + 1, Value::Dict(acc)))
    } else {
        match dec_str(s, p) {
            Err(e) => Err(e),
            Ok((q, kv)) => match kv {
                Value::Bytes(k) => if p < q <= s.len() {
                    match dec_value(s, q) {
                        Err(e) => Err(e),
                        Ok((r, v)) => if q < r <= s.len() {
                            dec_entries(s, r, dict_insert(acc, k, v))
                        } else {
                            Err(Fault::End)
                        },
                    }
                } else {
                    Err(Fault::End)
                },
                _ => Err(Fault::End),
            },
        }
    }
}

pub open spec fn list_view(items: Seq<BValue>) -> Seq<Value> {
    items.map_values(|x: BValue| x@)
}

pub(crate) proof fn lemma_digits_push(d: Seq<u8>, c: u8)
    ensures
        digits_val(d.push(c)) == digits_val(d) * 10 + (c - 48) as nat,
{
    assert(d.push(c).drop_last() =~= d);
}

/// Appending digits never lowers the value.
proof fn lemma_digits_monotone(d: Seq<u8>, k: int)
    requires
        0 <= k <= d.len(),
        all_digits(d),
    ensures
        digits_val(d.take(k)) <= digits_val(d),
    decreases d.len() - k,
{
    if k < d.len() {
        lemma_digits_monotone(d, k + 1);
        assert(d.take(k + 1) =~= d.take(k).push(d[k]));
        lemma_digits_push(d.take(k), d[k]);
    } else {
        assert(d.take(k) =~= d);
    }
}

fn find_byte(input: &[u8], from: usize, b: u8) -> (r: Option<usize>)
    requires
        from <= input.len(),
    ensures
        match r {
            Some(q) => find_from(input@, from as int, b) == Some(q as int) && from <= q
                < input.len(),
            None => find_from(input@, from as int, b) is None,
        },
{
    let mut i = from;
    while i < input.len()
        invariant
            from <= i <= input.len(),
            find_from(input@, from as int, b) == find_from(input@, i as int, b),
        decreases input.len() - i,
    {
        if input[i] == b {
            return Some(i);
        }
        i += 1;
    }
    None
}

pub(crate) fn copy_range(input: &[u8], a: usize, b: usize) -> (r: Vec<u8>)
    requires
        a <= b <= input.len(),
    ensures
        r@ == input@.subrange(a as int, b as int),
{
    let mut out: Vec<u8> = Vec::new();
    let mut i = a;
    while i < b
        invariant
            a <= i <= b <= input.len(),
            out@ == input@.subrange(a as int, i as int),
        decreases b - i,
    {
        out.push(input[i]);
        i += 1;
    }
    out
}

/// Reads the literal between positions `a` and `b` as an integer.
fn parse_int(input: &[u8], a: usize, b: usize) -> (r: Option<i64>)
    requires
        a <= b <= input.len(),
    ensures
        match r {
            Some(x) => int_value(input@.subrange(a as int, b as int)) == Some(x as int),
            None => int_value(input@.subrange(a as int, b as int)) is None,
        },
{
    let ghost lit = input@.subrange(a as int, b as int);
    if a == b {
        return None;
    }
    let neg = input[a] == 45;
    let ds = if neg {
        a + 1
    } else {
        a
    };
    let ghost d = input@.subrange(ds as int, b as int);
    assert(lit[0] == input@[a as int]);
    assert(neg ==> !is_digit(lit[0]));
    assert(neg ==> d =~= lit.drop_first());
    assert(!neg ==> d =~= lit);
    if ds == b {
        return None;
    }
    if input[ds] == 48 && (b - ds > 1 || neg) {
        return None;
    }
    let mut acc: u64 = 0;
    let mut i = ds;
    assert(d.take(0) =~= Seq::<u8>::empty());
    while i < b
        invariant
            a <= ds <= i <= b <= input.len(),
            d == input@.subrange(ds as int, b as int),
            lit == input@.subrange(a as int, b as int),
            lit.len() > 0,
            neg ==> !is_digit(lit[0]) && d == lit.drop_first() && lit.len() >= 2,
            !neg ==> lit[0] != 45 && d == lit,
            acc as int == digits_val(d.take(i - ds)),
            acc <= I64_MAG_LIMIT,
            all_digits(d.take(i - ds)),
        decreases b - i,
    {
        let c = input[i];
        assert(d[i - ds] == c);
        if c < 48 || c > 57 {
            assert(!all_digits(d));
            return None;
        }
        let dg = (c - 48) as u64;
        assert(d.take(i - ds + 1) =~= d.take(i - ds).push(c));
        proof {
            lemma_digits_push(d.take(i - ds), c);
        }
        if acc > (I64_MAG_LIMIT - dg) / 10 {
            assert(acc * 10 + dg > I64_MAG_LIMIT) by (nonlinear_arith)
                requires
                    acc > (I64_MAG_LIMIT - dg) / 10,
                    dg <= 9,
            ;
            proof {
                if all_digits(d) {
                    lemma_digits_monotone(d, i - ds + 1);
                }
            }
            return None;
        }
        assert(acc * 10 + dg <= I64_MAG_LIMIT) by (nonlinear_arith)
            requires
                acc <= (I64_MAG_LIMIT - dg) / 10,
                dg <= 9,
        ;
        acc = acc * 10 + dg;
        i += 1;
    }
    assert(d.take(i - ds) =~= d);
    if neg {
        if acc == I64_MAG_LIMIT {
            Some(i64::MIN)
        } else {
            Some(-(acc as i64))
        }
    } else if acc > i64::MAX as u64 {
        None
    } else {
        Some(acc as i64)
    }
}

fn decode_integer(input: &[u8], pos: usize) -> (r: Result<(usize, BValue), BencodeError>)
    requires
        pos < input.len(),
        input@[pos as int] == 105,
    ensures
        r matches Ok((n, _)) ==> pos < n <= input.len(),
        result_view(r) == dec_int(input@, pos as int),
        r matches Ok((_, v)) ==> v@.wf(),
{
    match find_byte(input, pos + 1, 101) {
        None => Err(BencodeError::InvalidFormat(pos)),
        Some(q) => match parse_int(input, pos + 1, q) {
            Some(x) => Ok((q + 1, BValue::Integer(x))),
            None => Err(BencodeError::InvalidInteger(copy_range(input, pos + 1, q))),
        },
    }
}

fn decode_string(input: &[u8], pos: usize) -> (r: Result<(usize, BValue), BencodeError>)
    requires
        pos <= input.len(),
    ensures
        r matches Ok((n, _)) ==> pos < n <= input.len(),
        result_view(r) == dec_str(input@, pos as int),
        r matches Ok((_, v)) ==> v is ByteString,
{
    let c = match find_byte(input, pos, 58) {
        None => {
            return Err(BencodeError::InvalidFormat(pos));
        },
        Some(c) => c,
    };
    let ghost lit = input@.subrange(pos as int, c as int);
    if c == pos {
        return Err(BencodeError::InvalidFormat(pos));
    }
    let rem = input.len() - (c + 1);
    let mut acc: usize = 0;
    let mut over = false;
    let mut i = pos;
    assert(lit.take(0) =~= Seq::<u8>::empty());
    while i < c
        invariant
            pos <= i <= c < input.len(),
            rem == input.len() - (c + 1),
            find_from(input@, pos as int, 58) == Some(c as int),
            lit == input@.subrange(pos as int, c as int),
            all_digits(lit.take(i - pos)),
            over ==> digits_val(lit.take(i - pos)) > rem,
            !over ==> acc as int == digits_val(lit.take(i - pos)) && acc <= rem,
        decreases c - i,
    {
        let b = input[i];
        assert(lit[i - pos] == b);
        if b < 48 || b > 57 {
            assert(!all_digits(lit));
            return Err(BencodeError::InvalidFormat(pos));
        }
        let dg = (b - 48) as usize;
        assert(lit.take(i - pos + 1) =~= lit.take(i - pos).push(b));
        proof {
            lemma_digits_push(lit.take(i - pos), b);
        }
        if !over {
            if dg > rem || acc > (rem - dg) / 10 {
                assert(acc * 10 + dg > rem) by (nonlinear_arith)
                    requires
                        dg > rem || acc > (rem - dg) / 10,
                ;
                over = true;
            } else {
                assert(acc * 10 + dg <= rem) by (nonlinear_arith)
                    requires
                        dg <= rem,
                        acc <= (rem - dg) / 10,
                ;
                acc = acc * 10 + dg;
            }
        }
        i += 1;
    }
    assert(lit.take(c - pos) =~= lit);
    if over {
        return Err(BencodeError::UnexpectedEnd);
    }
    let bytes = copy_range(input, c + 1, c + 1 + acc);
    Ok((c + 1 + acc, BValue::ByteString(bytes)))
}

fn decode_at(input: &[u8], pos: usize) -> (r: Result<(usize, BValue), BencodeError>)
    requires
        pos <= input.len(),
    ensures
        r matches Ok((n, _)) ==> pos < n <= input.len(),
        result_view(r) == dec_value(input@, pos as int),
        r matches Ok((_, v)) ==> v@.wf(),
    decreases input.len() - pos, 1int,
{
    if pos >= input.len() {
        return Err(BencodeError::UnexpectedEnd);
    }
    let c = input[pos];
    if c == 105 {
        decode_integer(input, pos)
    } else if c == 108 {
        decode_list(input, pos)
    } else if c == 100 {
        decode_dict(input, pos)
    } else if 48 <= c && c <= 57 {
        decode_string(input, pos)
    } else {
        Err(BencodeError::InvalidFormat(pos))
    }
}

fn decode_list(input: &[u8], pos: usize) -> (r: Result<(usize, BValue), BencodeError>)
    requires
        pos < input.len(),
    ensures
        r matches Ok((n, _)) ==> pos < n <= input.len(),
        result_view(r) == dec_items(input@, pos + 1, Seq::empty()),
        r matches Ok((_, v)) ==> v@.wf(),
    decreases input.len() - pos, 0int,
{
    let mut idx = pos + 1;
    let mut items: Vec<BValue> = Vec::new();
    assert(list_view(items@) =~= Seq::<Value>::empty());
    loop
        invariant
            pos < idx <= input.len(),
            dec_items(input@, pos + 1, Seq::empty()) == dec_items(
                input@,
                idx as int,
                list_view(items@),
            ),
            forall|i: int| 0 <= i < items.len() ==> (#[trigger] items@[i])@.wf(),
        decreases input.len() - idx,
    {
        if idx >= input.len() {
            return Err(BencodeError::InvalidFormat(input.len()));
        }
        if input[idx] == 101 {
            let ghost lv = list_view(items@);
            let v = BValue::List(items);
            assert(v@ == Value::List(lv)) by {
                assert(v@->List_0 =~= lv);
            }
            return Ok((idx + 1, v));
        }
        match decode_at(input, idx) {
            Err(e) => {
                return Err(e);
            },
            Ok((q, v)) => {
                if q <= idx || q > input.len() {
                    return Err(BencodeError::UnexpectedEnd);
                }
                let ghost old_items = items@;
                items.push(v);
                assert(list_view(items@) =~= list_view(old_items).push(v@));
                idx = q;
            },
        }
    }
}

fn decode_dict(input: &[u8], pos: usize) -> (r: Result<(usize, BValue), BencodeError>)
    requires
        pos < input.len(),
    ensures
        r matches Ok((n, _)) ==> pos < n <= input.len(),
        result_view(r) == dec_entries(input@, pos + 1, Seq::empty()),
        r matches Ok((_, v)) ==> v@.wf(),
    decreases input.len() - pos, 0int,
{
    let mut idx = pos + 1;
    let mut es: Vec<(Vec<u8>, BValue)> = Vec::new();
    assert(entries_view(es@) =~= Seq::<(Seq<u8>, Value)>::empty());
    loop
        invariant
            pos < idx <= input.len(),
            dec_entries(input@, pos + 1, Seq::empty()) == dec_entries(
                input@,
                idx as int,
                entries_view(es@),
            ),
            keys_sorted(entries_view(es@)),
            forall|i: int| 0 <= i < es.len() ==> (#[trigger] entries_view(es@)[i]).1.wf(),
        decreases input.len() - idx,
    {
        if idx >= input.len() {
            return Err(BencodeError::InvalidFormat(input.len()));
        }
        if input[idx] == 101 {
            return Ok((idx + 1, BValue::Dict(es)));
        }
        let (q, key) = match decode_string(input, idx) {
            Err(e) => {
                return Err(e);
            },
            Ok((q, BValue::ByteString(k))) => (q, k),
            Ok(_) => {
                return Err(BencodeError::UnexpectedEnd);
            },
        };
        if q <= idx || q > input.len() {
            return Err(BencodeError::UnexpectedEnd);
        }
        match decode_at(input, q) {
            Err(e) => {
                return Err(e);
            },
            Ok((r, v)) => {
                if r <= q || r > input.len() {
                    return Err(BencodeError::UnexpectedEnd);
                }
                insert_entry(&mut es, key, v);
                idx = r;
            },
        }
    }
}

/// Decodes the bencode value at the start of `input`. Returns the number of bytes it
/// takes and the value; bytes after it are left alone.
pub fn decode_bencode(input: &[u8]) -> (r: Result<(usize, BValue), BencodeError>)
    ensures
        result_view(r) == dec_value(input@, 0),
        r matches Ok((n, v)) ==> v@.wf() && 0 < n <= input.len(),
{
    decode_at(input, 0)
}

} // verus!
