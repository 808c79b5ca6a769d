use vstd::prelude::*;

verus! {

broadcast use vstd::std_specs::vec::axiom_vec_index_decreases;

/// Mathematical model of a bencode value.
pub enum Value {
    Int(int),
    Bytes(Seq<u8>),
    List(Seq<Value>),
    Dict(Seq<(Seq<u8>, Value)>),
}

/// A bencode value. Dictionary entries are kept sorted by key, without repeats.
#[derive(Debug, PartialEq, Eq)]
pub enum BValue {
    ByteString(Vec<u8>),
    Integer(i64),
    List(Vec<BValue>),
    Dict(Vec<(Vec<u8>, BValue)>),
}

impl View for BValue {
    type V = Value;

    open spec fn view(&self) -> Value
        decreases self,
    {
        match self {
            BValue::ByteString(b) => Value::Bytes(b@),
            BValue::Integer(i) => Value::Int(*i as int),
            BValue::List(items) => Value::List(
                Seq::new(
                    items.len() as nat,
                    |i: int|
                        if 0 <= i < items.len() {
                            items[i].view()
                        } else {
                            Value::Int(0)
                        },
                ),
            ),
            BValue::Dict(es) => Value::Dict(entries_view(es@)),
        }
    }
}

/// The model of a list of dictionary entries.
pub open spec fn entries_view(es: Seq<(Vec<u8>, BValue)>) -> Seq<(Seq<u8>, Value)>
    decreases es,
{
    Seq::new(
        es.len(),
        |i: int|
            if 0 <= i < es.len() {
                (es[i].0@, es[i].1.view())
            } else {
                (Seq::empty(), Value::Int(0))
            },
    )
}

/// Strict lexicographic order on byte strings.
pub open spec fn bytes_lt(a: Seq<u8>, b: Seq<u8>) -> bool
    decreases a.len(),
{
    if b.len() == 0 {
        false
    } else if a.len() == 0 {
        true
    } else if a[0] != b[0] {
        a[0] < b[0]
    } else {
        bytes_lt(a.drop_first(), b.drop_first())
    }
}

pub proof fn lemma_lt_irreflexive(a: Seq<u8>)
    ensures
        !bytes_lt(a, a),
    decreases a.len(),
{
    if a.len() > 0 {
        lemma_lt_irreflexive(a.drop_first());
    }
}

pub proof fn lemma_lt_asymmetric(a: Seq<u8>, b: Seq<u8>)
    requires
        bytes_lt(a, b),
    ensures
        !bytes_lt(b, a),
    decreases a.len(),
{
    if a.len() > 0 && b.len() > 0 && a[0] == b[0] {
        lemma_lt_asymmetric(a.drop_first(), b.drop_first());
    }
}

pub proof fn lemma_lt_transitive(a: Seq<u8>, b: Seq<u8>, c: Seq<u8>)
    requires
        bytes_lt(a, b),
        bytes_lt(b, c),
    ensures
        bytes_lt(a, c),
    decreases a.len(),
{
    if a.len() > 0 && a[0] == b[0] && b[0] == c[0] {
        lemma_lt_transitive(a.drop_first(), b.drop_first(), c.drop_first());
    }
}

pub proof fn lemma_lt_total(a: Seq<u8>, b: Seq<u8>)
    requires
        a != b,
        !bytes_lt(a, b),
    ensures
        bytes_lt(b, a),
    decreases a.len(),
{
    if a.len() == 0 && b.len() == 0 {
        assert(a =~= b);
    } else if a.len() > 0 && b.len() > 0 && a[0] == b[0] {
        if a.drop_first() =~= b.drop_first() {
            assert forall|i: int| 0 <= i < a.len() implies a[i] == b[i] by {
                if i > 0 {
                    assert(a[i] == a.drop_first()[i - 1]);
                    assert(b[i] == b.drop_first()[i - 1]);
                }
            }
            assert(a =~= b);
        }
        lemma_lt_total(a.drop_first(), b.drop_first());
    }
}

/// Every key is strictly below every later key.
pub open spec fn keys_sorted(es: Seq<(Seq<u8>, Value)>) -> bool {
    forall|i: int, j: int|
        #![trigger es[i], es[j]]
        0 <= i < j < es.len() ==> bytes_lt(es[i].0, es[j].0)
}

impl Value {
    /// Integers fit in 64 bits and dictionary keys are strictly increasing, at every depth.
    pub open spec fn wf(self) -> bool
        decreases self,
    {
        match self {
            Value::Int(i) => i64::MIN <= i <= i64::MAX,
            Value::Bytes(_) => true,
            Value::List(items) => forall|i: int| 0 <= i < items.len() ==> (#[trigger] items[i]).wf(),
            Value::Dict(es) => keys_sorted(es) && forall|i: int|
                0 <= i < es.len() ==> (#[trigger] es[i]).1.wf(),
        }
    }
}

/// The dictionary `es` with `k` bound to `v`: an existing binding of `k` is replaced,
/// a new key goes before the first key above it.
pub open spec fn dict_insert(es: Seq<(Seq<u8>, Value)>, k: Seq<u8>, v: Value) -> Seq<
    (Seq<u8>, Value),
>
    decreases es.len(),
{
    if es.len() == 0 {
        seq![(k, v)]
    } else if es[0].0 == k {
        seq![(k, v)] + es.drop_first()
    } else if bytes_lt(k, es[0].0) {
        seq![(k, v)] + es
    } else {
        seq![es[0]] + dict_insert(es.drop_first(), k, v)
    }
}

/// With every key before `idx` below `k` and the key at `idx` (if any) not below it,
/// inserting `k` places it at `idx`.
pub(crate) proof fn lemma_insert_at(es: Seq<(Seq<u8>, Value)>, k: Seq<u8>, v: Value, idx: int)
    requires
        0 <= idx <= es.len(),
        forall|j: int| 0 <= j < idx ==> bytes_lt(#[trigger] es[j].0, k),
        idx < es.len() ==> !bytes_lt(es[idx].0, k),
    ensures
        dict_insert(es, k, v) == if idx < es.len() && es[idx].0 == k {
            es.take(idx) + seq![(k, v)] + es.skip(idx + 1)
        } else {
            es.take(idx) + seq![(k, v)] + es.skip(idx)
        },
    decreases idx,
{
    if idx == 0 {
        if es.len() > 0 && es[0].0 != k {
            lemma_lt_total(es[0].0, k);
        }
        assert(es.take(0) =~= Seq::<(Seq<u8>, Value)>::empty());
        assert(es.skip(0) =~= es);
        assert(es.skip(1) =~= es.drop_first());
    } else {
        let t = es.drop_first();
        assert(bytes_lt(es[0].0, k));
        lemma_lt_irreflexive(k);
        lemma_lt_asymmetric(es[0].0, k);
        assert forall|j: int| 0 <= j < idx - 1 implies bytes_lt(#[trigger] t[j].0, k) by {
            assert(t[j] == es[j + 1]);
        }
        lemma_insert_at(t, k, v, idx - 1);
        if idx < es.len() && es[idx].0 == k {
            assert(es.take(idx) + seq![(k, v)] + es.skip(idx + 1) =~= seq![es[0]] + (t.take(idx
                - 1) + seq![(k, v)] + t.skip(idx)));
        } else {
            assert(es.take(idx) + seq![(k, v)] + es.skip(idx) =~= seq![es[0]] + (t.take(idx - 1)
                + seq![(k, v)] + t.skip(idx - 1)));
        }
    }
}

/// Inserting at the position where the keys stop being below `k` keeps the keys sorted.
proof fn lemma_insert_sorted(es: Seq<(Seq<u8>, Value)>, k: Seq<u8>, v: Value, idx: int)
    requires
        0 <= idx <= es.len(),
        keys_sorted(es),
        forall|j: int| 0 <= j < idx ==> bytes_lt(#[trigger] es[j].0, k),
        idx < es.len() ==> !bytes_lt(es[idx].0, k),
    ensures
        keys_sorted(dict_insert(es, k, v)),
        v.wf() && (forall|i: int| 0 <= i < es.len() ==> (#[trigger] es[i]).1.wf()) ==> forall|
            i: int,
        | 0 <= i < dict_insert(es, k, v).len() ==> (#[trigger] dict_insert(es, k, v)[i]).1.wf(),
{
    lemma_insert_at(es, k, v, idx);
    let r = dict_insert(es, k, v);
    if idx < es.len() && es[idx].0 == k {
        assert forall|i: int, j: int|
            #![trigger r[i], r[j]]
            0 <= i < j < r.len() implies bytes_lt(r[i].0, r[j].0) by {
            assert(r[i].0 == es[i].0);
            assert(r[j].0 == es[j].0);
        }
    } else {
        if idx < es.len() {
            lemma_lt_total(es[idx].0, k);
        }
        assert forall|i: int, j: int|
            #![trigger r[i], r[j]]
            0 <= i < j < r.len() implies bytes_lt(r[i].0, r[j].0) by {
            if i < idx && j > idx {
                assert(r[i] == es[i]);
                assert(r[j] == es[j - 1]);
            } else if i == idx && j > idx {
                assert(r[j] == es[j - 1]);
                if j - 1 > idx {
                    lemma_lt_transitive(k, es[idx].0, es[j - 1].0);
                }
            } else if i > idx {
                assert(r[i] == es[i - 1]);
                assert(r[j] == es[j - 1]);
            } else if j < idx {
                assert(r[i] == es[i]);
                assert(r[j] == es[j]);
            }
        }
    }
}

/// Compares two byte strings in lexicographic order.
pub fn bytes_less(a: &[u8], b: &[u8]) -> (r: bool)
    ensures
        r == bytes_lt(a@, b@),
{
    let mut i: usize = 0;
    assert(a@.skip(0) =~= a@);
    assert(b@.skip(0) =~= b@);
    while i < a.len() && i < b.len() && a[i] == b[i]
        invariant
            i <= a.len(),
            i <= b.len(),
            a@.take(i as int) =~= b@.take(i as int),
            bytes_lt(a@, b@) == bytes_lt(a@.skip(i as int), b@.skip(i as int)),
        decreases a.len() - i,
    {
        assert(a@.skip(i as int).drop_first() =~= a@.skip(i + 1));
        assert(b@.skip(i as int).drop_first() =~= b@.skip(i + 1));
        i += 1;
    }
    if i == b.len() {
        false
    } else if i == a.len() {
        true
    } else {
        a[i] < b[i]
    }
}

/// Binds `k` to `v` in a dictionary's sorted entries.
pub fn insert_entry(es: &mut Vec<(Vec<u8>, BValue)>, k: Vec<u8>, v: BValue)
    requires
        keys_sorted(entries_view(old(es)@)),
    ensures
        entries_view(final(es)@) == dict_insert(entries_view(old(es)@), k@, v@),
        keys_sorted(entries_view(final(es)@)),
        v@.wf() && (forall|i: int|
            0 <= i < old(es).len() ==> (#[trigger] entries_view(old(es)@)[i]).1.wf()) ==> forall|
            i: int,
        | 0 <= i < final(es).len() ==> (#[trigger] entries_view(final(es)@)[i]).1.wf(),
{
    let ghost ev = entries_view(es@);
    let ghost kv = k@;
    let mut idx: usize = 0;
    while idx < es.len()
        invariant
            idx <= es.len(),
            es@ == old(es)@,
            ev == entries_view(es@),
            kv == k@,
            forall|j: int| 0 <= j < idx ==> bytes_lt(#[trigger] ev[j].0, kv),
        ensures
            idx <= es.len(),
            es@ == old(es)@,
            forall|j: int| 0 <= j < idx ==> bytes_lt(#[trigger] ev[j].0, kv),
            idx < es.len() ==> !bytes_lt(ev[idx as int].0, kv),
        decreases es.len() - idx,
    {
        assert(ev[idx as int].0 == es@[idx as int].0@);
        if !bytes_less(es[idx].0.as_slice(), k.as_slice()) {
            break;
        }
        idx += 1;
    }
    let ghost same = idx < ev.len() && ev[idx as int].0 == kv;
    proof {
        lemma_insert_at(ev, kv, v@, idx as int);
    }
    let ghost vv = v@;
    proof {
        lemma_insert_sorted(ev, kv, vv, idx as int);
        lemma_lt_irreflexive(kv);
    }
    if idx < es.len() && !bytes_less(k.as_slice(), es[idx].0.as_slice()) {
        proof {
            if ev[idx as int].0 != kv {
                lemma_lt_total(ev[idx as int].0, kv);
            }
        }
        es.remove(idx);
        es.insert(idx, (k, v));
        assert(entries_view(es@) =~= ev.take(idx as int) + seq![(kv, vv)] + ev.skip(idx + 1));
    } else {
        es.insert(idx, (k, v));
        assert(entries_view(es@) =~= ev.take(idx as int) + seq![(kv, vv)] + ev.skip(idx as int));
    }
}

/// The value bound to `k`: the first entry with that key.
pub open spec fn dict_get(es: Seq<(Seq<u8>, Value)>, k: Seq<u8>) -> Option<Value>
    decreases es.len(),
{
    if es.len() == 0 {
        None
    } else if es[0].0 == k {
        Some(es[0].1)
    } else {
        dict_get(es.drop_first(), k)
    }
}

/// Tells whether two byte strings are equal.
pub fn bytes_equal(a: &[u8], b: &[u8]) -> (r: bool)
    ensures
        r == (a@ == b@),
{
    if a.len() != b.len() {
        return false;
    }
    let mut i: usize = 0;
    while i < a.len()
        invariant
            a.len() == b.len(),
            i <= a.len(),
            a@.take(i as int) =~= b@.take(i as int),
        decreases a.len() - i,
    {
        if a[i] != b[i] {
            return false;
        }
        assert(a@.take(i + 1) =~= a@.take(i as int).push(a[i as int]));
        assert(b@.take(i + 1) =~= b@.take(i as int).push(b[i as int]));
        i += 1;
    }
    assert(a@.take(i as int) =~= a@);
    assert(b@.take(i as int) =~= b@);
    true
}

/// Finds the value bound to `key` in a dictionary's entries.
pub fn dict_lookup<'a>(es: &'a Vec<(Vec<u8>, BValue)>, key: &[u8]) -> (r: Option<&'a BValue>)
    ensures
        match r {
            Some(v) => dict_get(entries_view(es@), key@) == Some(v@),
            None => dict_get(entries_view(es@), key@) is None,
        },
{
    let ghost ev = entries_view(es@);
    let mut i: usize = 0;
    assert(ev.skip(0) =~= ev);
    while i < es.len()
        invariant
            i <= es.len(),
            ev == entries_view(es@),
            dict_get(ev, key@) == dict_get(ev.skip(i as int), key@),
        decreases es.len() - i,
    {
        assert(ev[i as int] == (es@[i as int].0@, es@[i as int].1@));
        assert(ev.skip(i as int)[0] == ev[i as int]);
        if bytes_equal(es[i].0.as_slice(), key) {
            return Some(&es[i].1);
        }
        assert(ev.skip(i as int).drop_first() =~= ev.skip(i + 1));
        i += 1;
    }
    None
}

/// A value bound in a well-formed dictionary is well formed.
pub proof fn lemma_dict_get_wf(es: Seq<(Seq<u8>, Value)>, k: Seq<u8>)
    requires
        forall|i: int| 0 <= i < es.len() ==> (#[trigger] es[i]).1.wf(),
    ensures
        dict_get(es, k) matches Some(v) ==> v.wf(),
    decreases es.len(),
{
    if es.len() > 0 && es[0].0 != k {
        let t = es.drop_first();
        assert forall|i: int| 0 <= i < t.len() implies (#[trigger] t[i]).1.wf() by {
            assert(t[i] == es[i + 1]);
        }
        lemma_dict_get_wf(t, k);
    }
}

} // verus!
