use vstd::prelude::*;
use crate::value::{BValue, Value, bytes_lt, dict_insert, entries_view, keys_sorted, lemma_insert_at};
use crate::decode::{
    Fault, all_digits, canonical_digits, dec_entries, dec_items, dec_str, dec_value, digits_val,
    find_from, int_value, is_digit, lemma_digits_push,
};

verus! {

broadcast use vstd::std_specs::vec::axiom_vec_index_decreases;

/// Decimal digits of `n`, most significant first, without leading zeros.
pub open spec fn nat_digits(n: nat) -> Seq<u8>
    decreases n,
{
    if n < 10 {
        seq![(48 + n) as u8]
    } else {
        nat_digits(n / 10).push((48 + n % 10) as u8)
    }
}

/// Decimal form of an integer, with `-` before a negative one.
pub open spec fn int_digits(i: int) -> Seq<u8> {
    if i < 0 {
        seq![45u8] + nat_digits((-i) as nat)
    } else {
        nat_digits(i as nat)
    }
}

/// `<length>:<bytes>`
pub open spec fn enc_bytes(b: Seq<u8>) -> Seq<u8> {
    nat_digits(b.len()) + seq![58u8] + b
}

/// The canonical encoding of a value.
pub open spec fn enc(v: Value) -> Seq<u8>
    decreases v,
{
    match v {
        Value::Int(i) => seq![105u8] + int_digits(i) + seq![101u8],
        Value::Bytes(b) => enc_bytes(b),
        Value::List(items) => seq![108u8] + enc_items(items) + seq![101u8],
        Value::Dict(es) => seq![100u8] + enc_entries(es) + seq![101u8],
    }
}

/// The encodings of `items`, one after the other.
pub open spec fn enc_items(items: Seq<Value>) -> Seq<u8>
    decreases items,
{
    if items.len() == 0 {
        Seq::empty()
    } else {
        enc_items(items.drop_last()) + enc(items.last())
    }
}

/// Each key, then its value, in the order of `es`.
pub open spec fn enc_entries(es: Seq<(Seq<u8>, Value)>) -> Seq<u8>
    decreases es,
{
    if es.len() == 0 {
        Seq::empty()
    } else {
        enc_entries(es.drop_last()) + enc_bytes(es.last().0) + enc(es.last().1)
    }
}

proof fn lemma_nat_digits(n: nat)
    ensures
        canonical_digits(nat_digits(n)),
        digits_val(nat_digits(n)) == n,
        n > 0 ==> nat_digits(n)[0] != 48,
    decreases n,
{
    if n >= 10 {
        lemma_nat_digits(n / 10);
        let d = nat_digits(n / 10);
        lemma_digits_push(d, (48 + n % 10) as u8);
        assert(n == (n / 10) * 10 + n % 10);
        assert(nat_digits(n)[0] == d[0]);
        assert(all_digits(nat_digits(n))) by {
            assert forall|i: int| 0 <= i < nat_digits(n).len() implies is_digit(
                #[trigger] nat_digits(n)[i],
            ) by {
                if i < d.len() {
                    assert(nat_digits(n)[i] == d[i]);
                }
            }
        }
    } else {
        lemma_digits_push(Seq::<u8>::empty(), (48 + n) as u8);
        assert(nat_digits(n) =~= Seq::<u8>::empty().push((48 + n) as u8));
    }
}

proof fn lemma_find(s: Seq<u8>, i: int, j: int, b: u8)
    requires
        0 <= i <= j < s.len(),
        s[j] == b,
        forall|k: int| i <= k < j ==> s[k] != b,
    ensures
        find_from(s, i, b) == Some(j),
    decreases j - i,
{
    if i < j {
        lemma_find(s, i + 1, j, b);
    }
}

proof fn lemma_int_value(x: int)
    requires
        i64::MIN <= x <= i64::MAX,
    ensures
        int_value(int_digits(x)) == Some(x),
        all_digits(int_digits(x).drop_first()),
        x >= 0 ==> all_digits(int_digits(x)),
        x < 0 ==> int_digits(x)[0] == 45,
{
    if x < 0 {
        lemma_nat_digits((-x) as nat);
        let lit = int_digits(x);
        assert(lit.drop_first() =~= nat_digits((-x) as nat));
        assert(!is_digit(lit[0]));
    } else {
        lemma_nat_digits(x as nat);
        let d = nat_digits(x as nat);
        assert forall|i: int| 0 <= i < d.drop_first().len() implies is_digit(
            #[trigger] d.drop_first()[i],
        ) by {
            assert(d.drop_first()[i] == d[i + 1]);
        }
    }
}

proof fn lemma_enc_first(v: Value)
    ensures
        enc(v).len() >= 1,
        enc(v)[0] != 101,
        v is Bytes ==> is_digit(enc(v)[0]),
        v is Int ==> enc(v)[0] == 105,
{
    if let Value::Bytes(b) = v {
        lemma_nat_digits(b.len());
        assert(enc(v)[0] == nat_digits(b.len())[0]);
    }
}

/// `b` encoded at the end of `pre` decodes back to `b`.
proof fn lemma_dec_bytes(pre: Seq<u8>, b: Seq<u8>, rest: Seq<u8>)
    ensures
        dec_str(pre + enc_bytes(b) + rest, pre.len() as int) == Ok::<(int, Value), Fault>(
            ((pre.len() + enc_bytes(b).len()) as int, Value::Bytes(b)),
        ),
{
    let s = pre + enc_bytes(b) + rest;
    let p = pre.len() as int;
    let nd = nat_digits(b.len());
    lemma_nat_digits(b.len());
    let c = p + nd.len();
    assert(s[c] == 58);
    assert forall|k: int| p <= k < c implies s[k] != 58 by {
        assert(s[k] == nd[k - p]);
    }
    lemma_find(s, p, c, 58);
    assert(s.subrange(p, c) =~= nd);
    assert(s.subrange(c + 1, c + 1 + b.len()) =~= b);
}

/// The value encoded at the end of `pre` decodes back to itself.
proof fn lemma_dec_enc(pre: Seq<u8>, v: Value, rest: Seq<u8>)
    requires
        v.wf(),
    ensures
        dec_value(pre + enc(v) + rest, pre.len() as int) == Ok::<(int, Value), Fault>(
            ((pre.len() + enc(v).len()) as int, v),
        ),
    decreases v, 0int,
{
    let s = pre + enc(v) + rest;
    let p = pre.len() as int;
    lemma_enc_first(v);
    assert(s[p] == enc(v)[0]);
    match v {
        Value::Int(x) => {
            lemma_int_value(x);
            let lit = int_digits(x);
            let q = p + 1 + lit.len();
            assert(s[q] == 101);
            assert forall|k: int| p + 1 <= k < q implies s[k] != 101 by {
                assert(s[k] == lit[k - p - 1]);
                if k > p + 1 {
                    assert(lit.drop_first()[k - p - 2] == lit[k - p - 1]);
                }
            }
            lemma_find(s, p + 1, q, 101);
            assert(s.subrange(p + 1, q) =~= lit);
        },
        Value::Bytes(b) => {
            lemma_dec_bytes(pre, b, rest);
        },
        Value::List(items) => {
            let body = pre + seq![108u8];
            assert(s =~= body + enc_items(items) + (seq![101u8] + rest));
            assert(items.take(0) =~= Seq::<Value>::empty());
            lemma_dec_items(body, items, seq![101u8] + rest, 0);
            assert(items.take(items.len() as int) =~= items);
        },
        Value::Dict(es) => {
            let body = pre + seq![100u8];
            assert(s =~= body + enc_entries(es) + (seq![101u8] + rest));
            assert(es.take(0) =~= Seq::<(Seq<u8>, Value)>::empty());
            lemma_dec_entries(body, es, seq![101u8] + rest, 0);
            assert(es.take(es.len() as int) =~= es);
        },
    }
}

proof fn lemma_enc_items_split(items: Seq<Value>, k: int)
    requires
        0 <= k <= items.len(),
    ensures
        enc_items(items) == enc_items(items.take(k)) + enc_items(items.skip(k)),
    decreases items.len(),
{
    if k == items.len() {
        assert(items.take(k) =~= items);
        assert(items.skip(k) =~= Seq::<Value>::empty());
    } else {
        lemma_enc_items_split(items.drop_last(), k);
        assert(items.drop_last().take(k) =~= items.take(k));
        assert(items.skip(k).drop_last() =~= items.drop_last().skip(k));
        assert(items.skip(k).last() == items.last());
    }
}

proof fn lemma_enc_entries_split(es: Seq<(Seq<u8>, Value)>, k: int)
    requires
        0 <= k <= es.len(),
    ensures
        enc_entries(es) == enc_entries(es.take(k)) + enc_entries(es.skip(k)),
    decreases es.len(),
{
    if k == es.len() {
        assert(es.take(k) =~= es);
        assert(es.skip(k) =~= Seq::<(Seq<u8>, Value)>::empty());
    } else {
        lemma_enc_entries_split(es.drop_last(), k);
        assert(es.drop_last().take(k) =~= es.take(k));
        assert(es.skip(k).drop_last() =~= es.drop_last().skip(k));
        assert(es.skip(k).last() == es.last());
    }
}

/// After the first `k` items, decoding the rest of the list yields all of them.
proof fn lemma_dec_items(pre: Seq<u8>, items: Seq<Value>, rest: Seq<u8>, k: int)
    requires
        0 <= k <= items.len(),
        forall|i: int| 0 <= i < items.len() ==> (#[trigger] items[i]).wf(),
        rest.len() > 0 && rest[0] == 101,
    ensures
        dec_items(
            pre + enc_items(items) + rest,
            (pre.len() + enc_items(items.take(k)).len()) as int,
            items.take(k),
        ) == Ok::<(int, Value), Fault>(
            ((pre.len() + enc_items(items).len() + 1) as int, Value::List(items)),
        ),
    decreases items, items.len() - k,
{
    let s = pre + enc_items(items) + rest;
    let pk = (pre.len() + enc_items(items.take(k)).len()) as int;
    if k == items.len() {
        assert(items.take(k) =~= items);
        assert(s[pk] == 101);
    } else {
        lemma_enc_items_split(items, k);
        lemma_enc_items_split(items, k + 1);
        assert(items.take(k + 1).drop_last() =~= items.take(k));
        let x = items[k];
        let pre2 = pre + enc_items(items.take(k));
        let rest2 = enc_items(items.skip(k + 1)) + rest;
        assert(s =~= pre2 + enc(x) + rest2);
        lemma_dec_enc(pre2, x, rest2);
        lemma_enc_first(x);
        assert(s[pk] == enc(x)[0]);
        assert(items.take(k).push(x) =~= items.take(k + 1));
        lemma_dec_items(pre, items, rest, k + 1);
    }
}

/// Inserting the next entry of a well-formed dictionary appends it.
proof fn lemma_insert_next(es: Seq<(Seq<u8>, Value)>, k: int)
    requires
        0 <= k < es.len(),
        keys_sorted(es),
    ensures
        dict_insert(es.take(k), es[k].0, es[k].1) == es.take(k + 1),
{
    let acc = es.take(k);
    let key = es[k].0;
    assert forall|j: int| 0 <= j < acc.len() implies bytes_lt(#[trigger] acc[j].0, key) by {
        assert(acc[j] == es[j]);
    }
    lemma_insert_at(acc, key, es[k].1, acc.len() as int);
    assert(acc.take(acc.len() as int) =~= acc);
    assert(acc.skip(acc.len() as int) =~= Seq::<(Seq<u8>, Value)>::empty());
    assert(dict_insert(acc, key, es[k].1) =~= es.take(k + 1));
}

/// After the first `k` entries, decoding the rest of the dictionary yields all of them.
#[verifier::rlimit(40)]
proof fn lemma_dec_entries(pre: Seq<u8>, es: Seq<(Seq<u8>, Value)>, rest: Seq<u8>, k: int)
    requires
        0 <= k <= es.len(),
        Value::Dict(es).wf(),
        rest.len() > 0 && rest[0] == 101,
    ensures
        dec_entries(
            pre + enc_entries(es) + rest,
            (pre.len() + enc_entries(es.take(k)).len()) as int,
            es.take(k),
        ) == Ok::<(int, Value), Fault>(
            ((pre.len() + enc_entries(es).len() + 1) as int, Value::Dict(es)),
        ),
    decreases es, es.len() - k,
{
    let s = pre + enc_entries(es) + rest;
    let pk = (pre.len() + enc_entries(es.take(k)).len()) as int;
    if k == es.len() {
        assert(es.take(k) =~= es);
        assert(s[pk] == 101);
    } else {
        lemma_enc_entries_split(es, k);
        lemma_enc_entries_split(es, k + 1);
        assert(es.take(k + 1).drop_last() =~= es.take(k));
        let (key, x) = es[k];
        assert(x.wf());
        let pre2 = pre + enc_entries(es.take(k));
        let rest2 = enc_entries(es.skip(k + 1)) + rest;
        let pre3 = pre2 + enc_bytes(key);
        assert(s =~= pre2 + enc_bytes(key) + (enc(x) + rest2));
        assert(s =~= pre3 + enc(x) + rest2);
        lemma_dec_bytes(pre2, key, enc(x) + rest2);
        lemma_dec_enc(pre3, x, rest2);
        lemma_enc_first(Value::Bytes(key));
        assert(s[pk] == enc_bytes(key)[0]);
        lemma_insert_next(es, k);
        lemma_dec_entries(pre, es, rest, k + 1);
    }
}

/// Decoding the encoding of any well-formed value gives back the value and the length of
/// its encoding, whatever follows it.
pub proof fn lemma_round_trip(v: Value, rest: Seq<u8>)
    requires
        v.wf(),
    ensures
        dec_value(enc(v) + rest, 0) == Ok::<(int, Value), Fault>((enc(v).len() as int, v)),
{
    lemma_dec_enc(Seq::empty(), v, rest);
    assert(Seq::<u8>::empty() + enc(v) + rest =~= enc(v) + rest);
}

/// A well-formed dictionary is written as `d`, then each entry's key and value in the
/// order of its entries, then `e`; and that order puts the keys strictly increasing.
pub proof fn lemma_canonical_dict(es: Seq<(Seq<u8>, Value)>, i: int)
    requires
        Value::Dict(es).wf(),
        0 <= i < es.len(),
    ensures
        enc(Value::Dict(es)) == seq![100u8] + enc_entries(es.take(i)) + enc_bytes(es[i].0) + enc(
            es[i].1,
        ) + enc_entries(es.skip(i + 1)) + seq![101u8],
        forall|j: int| i < j < es.len() ==> bytes_lt(es[i].0, #[trigger] es[j].0),
{
    lemma_enc_entries_split(es, i + 1);
    assert(es.take(i + 1).drop_last() =~= es.take(i));
    assert(es[i] == es.take(i + 1).last());
    assert forall|j: int| i < j < es.len() implies bytes_lt(es[i].0, #[trigger] es[j].0) by {
        assert(keys_sorted(es));
    }
}

fn write_nat(n: u64, out: &mut Vec<u8>)
    ensures
        final(out)@ == old(out)@ + nat_digits(n as nat),
    decreases n,
{
    if n >= 10 {
        write_nat(n / 10, out);
    }
    out.push((48 + n % 10) as u8);
    assert(final(out)@ =~= old(out)@ + nat_digits(n as nat));
}

fn write_bytes(b: &[u8], out: &mut Vec<u8>)
    ensures
        final(out)@ == old(out)@ + enc_bytes(b@),
{
    write_nat(b.len() as u64, out);
    out.push(58);
    out.extend_from_slice(b);
    assert(final(out)@ =~= old(out)@ + enc_bytes(b@));
}

#[verifier::loop_isolation(false)]
fn encode_into(value: &BValue, out: &mut Vec<u8>)
    ensures
        final(out)@ == old(out)@ + enc(value@),
    decreases value,
{
    match value {
        BValue::Integer(i) => {
            out.push(105);
            if *i < 0 {
                out.push(45);
                let mag = ((-(*i + 1)) as u64) + 1;
                write_nat(mag, out);
            } else {
                write_nat(*i as u64, out);
            }
            out.push(101);
            assert(final(out)@ =~= old(out)@ + enc(value@));
        },
        BValue::ByteString(b) => {
            write_bytes(b.as_slice(), out);
        },
        BValue::List(items) => {
            let ghost iv = value@->List_0;
            out.push(108);
            let mut idx: usize = 0;
            assert(iv.take(0) =~= Seq::<Value>::empty());
            while idx < items.len()
                invariant
                    idx <= items.len(),
                    iv == value@->List_0,
                    iv.len() == items.len(),
                    forall|j: int| 0 <= j < items.len() ==> iv[j] == (#[trigger] items[j])@,
                    out@ == old(out)@ + seq![108u8] + enc_items(iv.take(idx as int)),
                decreases items.len() - idx,
            {
                proof {
                    assert(decreases_to!(items => items[idx as int]));
                }
                encode_into(&items[idx], out);
                assert(iv.take(idx + 1).drop_last() =~= iv.take(idx as int));
                assert(out@ =~= old(out)@ + seq![108u8] + enc_items(iv.take(idx + 1)));
                idx += 1;
            }
            out.push(101);
            assert(iv.take(idx as int) =~= iv);
            assert(final(out)@ =~= old(out)@ + enc(value@));
        },
        BValue::Dict(es) => {
            let ghost ev = entries_view(es@);
            out.push(100);
            let mut idx: usize = 0;
            assert(ev.take(0) =~= Seq::<(Seq<u8>, Value)>::empty());
            while idx < es.len()
                invariant
                    idx <= es.len(),
                    ev == entries_view(es@),
                    value@ == Value::Dict(ev),
                    out@ == old(out)@ + seq![100u8] + enc_entries(ev.take(idx as int)),
                decreases es.len() - idx,
            {
                write_bytes(es[idx].0.as_slice(), out);
                proof {
                    assert(decreases_to!(es => es[idx as int]));
                }
                encode_into(&es[idx].1, out);
                assert(ev.take(idx + 1).drop_last() =~= ev.take(idx as int));
                assert(ev[idx as int] == (es@[idx as int].0@, es@[idx as int].1@));
                assert(out@ =~= old(out)@ + seq![100u8] + enc_entries(ev.take(idx + 1)));
                idx += 1;
            }
            out.push(101);
            assert(ev.take(idx as int) =~= ev);
            assert(final(out)@ =~= old(out)@ + enc(value@));
        },
    }
}

/// Encodes a well-formed value (dictionary keys strictly increasing at every depth, as
/// the decoder and `insert_entry` keep them) in its canonical form.
pub fn encode_bvalue(value: &BValue) -> (r: Vec<u8>)
    requires
        value@.wf(),
    ensures
        r@ == enc(value@),
{
    let mut out: Vec<u8> = Vec::new();
    encode_into(value, &mut out);
    assert(out@ =~= enc(value@));
    out
}

} // verus!
