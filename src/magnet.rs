use vstd::prelude::*;
use vstd::string::StringSliceAdditionalSpecFns;
use crate::url::{push_char, url_decode, url_decoded};

verus! {

/// Why a magnet link was refused.
#[derive(Debug, PartialEq, Eq)]
pub enum MagnetError {
    /// The link is empty.
    UnexpectedEnd,
    /// No `?` starts the parameters.
    MissingQuery,
    /// A parameter without `=`.
    MissingValue,
    /// An `xt` parameter that does not start with `urn:btih:`.
    NotBtih,
}

/// First position at or after `i` that holds `c`.
pub open spec fn find_char(s: Seq<char>, i: int, c: char) -> Option<int>
    decreases s.len() - i,
{
    if i < 0 || i >= s.len() {
        None
    } else if s[i] == c {
        Some(i)
    } else {
        find_char(s, i + 1, c)
    }
}

proof fn lemma_find_char(s: Seq<char>, i: int, j: int, c: char)
    requires
        0 <= i <= j <= s.len(),
        j < s.len() ==> s[j] == c,
        forall|k: int| i <= k < j ==> s[k] != c,
    ensures
        find_char(s, i, c) == if j < s.len() {
            Some(j)
        } else {
            None::<int>
        },
    decreases j - i,
{
    if i < j {
        lemma_find_char(s, i + 1, j, c);
    }
}

/// The pieces of `s` between `&` separators, empty ones included.
pub open spec fn segments(s: Seq<char>) -> Seq<Seq<char>>
    decreases s.len(),
{
    match find_char(s, 0, '&') {
        Some(k) => if 0 <= k < s.len() {
            seq![s.take(k)] + segments(s.skip(k + 1))
        } else {
            seq![s]
        },
        None => seq![s],
    }
}

/// `key=value`, split at the first `=`.
pub open spec fn param_of(seg: Seq<char>) -> Option<(Seq<char>, Seq<char>)> {
    match find_char(seg, 0, '=') {
        Some(k) => Some((seg.take(k), seg.skip(k + 1))),
        None => None,
    }
}

/// The parameters of the segments, in order; empty segments are skipped.
pub open spec fn params_of(segs: Seq<Seq<char>>) -> Result<Seq<(Seq<char>, Seq<char>)>, MagnetError>
    decreases segs.len(),
{
    if segs.len() == 0 {
        Ok(Seq::empty())
    } else {
        match params_of(segs.drop_last()) {
            Err(e) => Err(e),
            Ok(ps) => if segs.last().len() == 0 {
                Ok(ps)
            } else {
                match param_of(segs.last()) {
                    None => Err(MagnetError::MissingValue),
                    Some(p) => Ok(ps.push(p)),
                }
            },
        }
    }
}

pub open spec fn magnet_prefix() -> Seq<char> {
    seq!['m', 'a', 'g', 'n', 'e', 't', ':']
}

pub open spec fn btih_prefix() -> Seq<char> {
    seq!['u', 'r', 'n', ':', 'b', 't', 'i', 'h', ':']
}

/// The parameter text of a link: after the `?` that follows `magnet:`, or after a
/// leading `?`.
pub open spec fn query_of(s: Seq<char>) -> Result<Seq<char>, MagnetError> {
    if s.len() == 0 {
        Err(MagnetError::UnexpectedEnd)
    } else if s.len() >= 7 && s.take(7) == magnet_prefix() {
        match find_char(s, 7, '?') {
            None => Err(MagnetError::MissingQuery),
            Some(q) => Ok(s.skip(q + 1)),
        }
    } else if s[0] == '?' {
        Ok(s.skip(1))
    } else {
        Err(MagnetError::MissingQuery)
    }
}

/// The info-hash text of an `xt` value.
pub open spec fn info_hash_of(v: Seq<char>) -> Result<Seq<char>, MagnetError> {
    if v.len() >= 9 && v.take(9) == btih_prefix() {
        Ok(v.skip(9))
    } else {
        Err(MagnetError::NotBtih)
    }
}

/// What a parameter becomes: `xt` gives `info_hash`, `dn` gives `file_name`, `tr` gives
/// `announce` (percent-decoded); any other key stays as it is.
pub open spec fn entry_of(p: (Seq<char>, Seq<char>)) -> Result<(Seq<char>, Seq<char>), MagnetError> {
    if p.0 == seq!['x', 't'] {
        match info_hash_of(p.1) {
            Err(e) => Err(e),
            Ok(h) => Ok((seq!['i', 'n', 'f', 'o', '_', 'h', 'a', 's', 'h'], h)),
        }
    } else if p.0 == seq!['d', 'n'] {
        Ok((seq!['f', 'i', 'l', 'e', '_', 'n', 'a', 'm', 'e'], p.1))
    } else if p.0 == seq!['t', 'r'] {
        Ok((seq!['a', 'n', 'n', 'o', 'u', 'n', 'c', 'e'], url_decoded(p.1)))
    } else {
        Ok(p)
    }
}

pub open spec fn entries_of(ps: Seq<(Seq<char>, Seq<char>)>) -> Result<Seq<(Seq<char>, Seq<char>)>, MagnetError>
    decreases ps.len(),
{
    if ps.len() == 0 {
        Ok(Seq::empty())
    } else {
        match entries_of(ps.drop_last()) {
            Err(e) => Err(e),
            Ok(es) => match entry_of(ps.last()) {
                Err(e) => Err(e),
                Ok(x) => Ok(es.push(x)),
            },
        }
    }
}

/// The entries of a magnet link, in the order of its parameters.
pub open spec fn magnet_model(s: Seq<char>) -> Result<Seq<(Seq<char>, Seq<char>)>, MagnetError> {
    match query_of(s) {
        Err(e) => Err(e),
        Ok(q) => match params_of(segments(q)) {
            Err(e) => Err(e),
            Ok(ps) => entries_of(ps),
        },
    }
}

/// The value of the last entry with key `k`: a later parameter overrides an earlier one.
pub open spec fn lookup_last(es: Seq<(Seq<char>, Seq<char>)>, k: Seq<char>) -> Option<Seq<char>>
    decreases es.len(),
{
    if es.len() == 0 {
        None
    } else if es.last().0 == k {
        Some(es.last().1)
    } else {
        lookup_last(es.drop_last(), k)
    }
}

/// The parameters of a magnet link, by name.
#[derive(Debug)]
pub struct MagnetParams {
    pub entries: Vec<(String, String)>,
}

pub open spec fn pairs_view(v: Seq<(String, String)>) -> Seq<(Seq<char>, Seq<char>)> {
    v.map_values(|p: (String, String)| (p.0@, p.1@))
}

fn same_text(a: &str, b: &str) -> (r: bool)
    ensures
        r == (a@ == b@),
{
    let n = a.unicode_len();
    if n != b.unicode_len() {
        return false;
    }
    let mut i: usize = 0;
    while i < n
        invariant
            n == a@.len(),
            n == b@.len(),
            i <= n,
            forall|k: int| 0 <= k < i ==> a@[k] == b@[k],
        decreases n - i,
    {
        if a.get_char(i) != b.get_char(i) {
            return false;
        }
        i += 1;
    }
    assert(a@ =~= b@);
    true
}

fn text_of(cs: &[char]) -> (r: String)
    ensures
        r@ == cs@,
{
    let mut out = String::new();
    let mut i: usize = 0;
    while i < cs.len()
        invariant
            i <= cs.len(),
            out@ == cs@.take(i as int),
        decreases cs.len() - i,
    {
        push_char(&mut out, cs[i]);
        assert(cs@.take(i + 1) =~= cs@.take(i as int).push(cs@[i as int]));
        i += 1;
    }
    assert(cs@.take(i as int) =~= cs@);
    out
}

fn starts_with_chars(s: &str, p: &[char]) -> (r: bool)
    ensures
        r == (s@.len() >= p@.len() && s@.take(p@.len() as int) == p@),
{
    let n = s.unicode_len();
    if n < p.len() {
        return false;
    }
    let mut i: usize = 0;
    while i < p.len()
        invariant
            n == s@.len(),
            p.len() <= n,
            i <= p.len(),
            forall|k: int| 0 <= k < i ==> s@[k] == p@[k],
        decreases p.len() - i,
    {
        if s.get_char(i) != p[i] {
            assert(s@.take(p@.len() as int)[i as int] != p@[i as int]);
            return false;
        }
        i += 1;
    }
    assert(s@.take(p@.len() as int) =~= p@);
    true
}

impl MagnetParams {
    /// The value named `key`.
    pub fn get(&self, key: &str) -> (r: Option<&String>)
        ensures
            match lookup_last(pairs_view(self.entries@), key@) {
                Some(v) => r matches Some(x) && x@ == v,
                None => r is None,
            },
    {
        let ghost pv = pairs_view(self.entries@);
        let mut i = self.entries.len();
        assert(pv.take(i as int) =~= pv);
        while i > 0
            invariant
                i <= self.entries.len(),
                pv == pairs_view(self.entries@),
                lookup_last(pv, key@) == lookup_last(pv.take(i as int), key@),
            decreases i,
        {
            let ghost t = pv.take(i as int);
            assert(t.last() == (self.entries@[i - 1].0@, self.entries@[i - 1].1@));
            if same_text(self.entries[i - 1].0.as_str(), key) {
                return Some(&self.entries[i - 1].1);
            }
            assert(t.drop_last() =~= pv.take(i - 1));
            i -= 1;
        }
        None
    }
}

/// The info-hash text of an `xt` value (`urn:btih:<hash>`).
fn decode_info_hash(input: &str) -> (r: Result<String, MagnetError>)
    ensures
        match info_hash_of(input@) {
            Ok(h) => r matches Ok(x) && x@ == h,
            Err(e) => r == Err::<String, MagnetError>(e),
        },
{
    let prefix: [char; 9] = ['u', 'r', 'n', ':', 'b', 't', 'i', 'h', ':'];
    assert(prefix@ == btih_prefix());
    if !starts_with_chars(input, prefix.as_slice()) {
        return Err(MagnetError::NotBtih);
    }
    let n = input.unicode_len();
    Ok(input.substring_char(9, n).to_owned())
}

/// A failure among the first segments is the failure of the whole.
proof fn lemma_params_err_prefix(a: Seq<Seq<char>>, b: Seq<Seq<char>>)
    requires
        params_of(a) is Err,
    ensures
        params_of(a + b) == params_of(a),
    decreases b.len(),
{
    if b.len() == 0 {
        assert(a + b =~= a);
    } else {
        lemma_params_err_prefix(a, b.drop_last());
        assert((a + b).drop_last() =~= a + b.drop_last());
    }
}

/// A failure among the first parameters is the failure of the whole.
proof fn lemma_entries_err_prefix(a: Seq<(Seq<char>, Seq<char>)>, b: Seq<(Seq<char>, Seq<char>)>)
    requires
        entries_of(a) is Err,
    ensures
        entries_of(a + b) == entries_of(a),
    decreases b.len(),
{
    if b.len() == 0 {
        assert(a + b =~= a);
    } else {
        lemma_entries_err_prefix(a, b.drop_last());
        assert((a + b).drop_last() =~= a + b.drop_last());
    }
}

fn text_is(s: &str, cs: &[char]) -> (r: bool)
    ensures
        r == (s@ == cs@),
{
    let n = s.unicode_len();
    if n != cs.len() {
        return false;
    }
    let r = starts_with_chars(s, cs);
    assert(s@.take(cs@.len() as int) =~= s@);
    r
}

/// Splits parameter text at `&` into `key=value` pairs, skipping empty pieces.
pub fn decode_magnet_parameters(input: &str) -> (r: Result<Vec<(String, String)>, MagnetError>)
    ensures
        match params_of(segments(input@)) {
            Ok(ps) => r matches Ok(v) && pairs_view(v@) == ps,
            Err(e) => r == Err::<Vec<(String, String)>, MagnetError>(e),
        },
{
    let n = input.unicode_len();
    let ghost s = input@;
    let mut params: Vec<(String, String)> = Vec::new();
    let ghost mut done: Seq<Seq<char>> = Seq::empty();
    let mut seg_start: usize = 0;
    let mut i: usize = 0;
    assert(s.skip(0) =~= s);
    assert(pairs_view(params@) =~= Seq::<(Seq<char>, Seq<char>)>::empty());
    loop
        invariant
            n == s.len(),
            s == input@,
            seg_start <= i <= n,
            forall|k: int| seg_start <= k < i ==> s[k] != '&',
            segments(s) == done + segments(s.skip(seg_start as int)),
            params_of(done) == Ok::<Seq<(Seq<char>, Seq<char>)>, MagnetError>(
                pairs_view(params@),
            ),
        decreases n - i, 1int,
    {
        if i < n && input.get_char(i) != '&' {
            i += 1;
            continue;
        }
        let ghost t = s.skip(seg_start as int);
        let ghost seg = s.subrange(seg_start as int, i as int);
        proof {
            if i < n {
                assert(t[i - seg_start] == s[i as int]);
            }
            assert forall|k: int| 0 <= k < i - seg_start implies t[k] != '&' by {
                assert(t[k] == s[seg_start + k]);
            }
            lemma_find_char(t, 0, i - seg_start, '&');
            if i < n {
                assert(t.take(i - seg_start) =~= seg);
                assert(t.skip(i - seg_start + 1) =~= s.skip(i + 1));
            } else {
                assert(t =~= seg);
            }
        }
        if i > seg_start {
            let mut eq = seg_start;
            while eq < i && input.get_char(eq) != '='
                invariant
                    n == s.len(),
                    s == input@,
                    seg_start <= eq <= i <= n,
                    forall|k: int| seg_start <= k < eq ==> s[k] != '=',
                decreases i - eq,
            {
                eq += 1;
            }
            proof {
                if eq < i {
                    assert(seg[eq - seg_start] == s[eq as int]);
                }
                assert forall|k: int| 0 <= k < eq - seg_start implies seg[k] != '=' by {
                    assert(seg[k] == s[seg_start + k]);
                }
                lemma_find_char(seg, 0, eq - seg_start, '=');
                assert(done.push(seg).drop_last() =~= done);
            }
            if eq == i {
                proof {
                    let rest = if i < n {
                        segments(s.skip(i + 1))
                    } else {
                        Seq::<Seq<char>>::empty()
                    };
                    assert(segments(s.skip(seg_start as int)) == seq![seg] + rest);
                    assert(segments(s) =~= done.push(seg) + rest);
                    lemma_params_err_prefix(done.push(seg), rest);
                }
                return Err(MagnetError::MissingValue);
            }
            let key = input.substring_char(seg_start, eq).to_owned();
            let value = input.substring_char(eq + 1, i).to_owned();
            assert(key@ =~= seg.take(eq - seg_start));
            assert(value@ =~= seg.skip(eq - seg_start + 1));
            let ghost before = params@;
            params.push((key, value));
            assert(pairs_view(params@) =~= pairs_view(before).push((key@, value@)));
        } else {
            proof {
                assert(done.push(seg).drop_last() =~= done);
                assert(seg.len() == 0);
            }
        }
        proof {
            done = done.push(seg);
        }
        if i == n {
            assert(segments(s) =~= done);
            return Ok(params);
        }
        proof {
            assert(done + segments(s.skip(i + 1)) =~= (done.drop_last() + seq![seg]) + segments(
                s.skip(i + 1),
            ));
            assert(done.drop_last() + (seq![seg] + segments(s.skip(i + 1))) =~= done + segments(
                s.skip(i + 1),
            ));
        }
        seg_start = i + 1;
        i += 1;
    }
}

/// Reads a magnet link: `magnet:?xt=urn:btih:<hash>&dn=<name>&tr=<tracker>`.
pub fn decode_magnet(input: &str) -> (r: Result<MagnetParams, MagnetError>)
    ensures
        match magnet_model(input@) {
            Ok(es) => r matches Ok(m) && pairs_view(m.entries@) == es,
            Err(e) => r matches Err(x) && x == e,
        },
{
    let n = input.unicode_len();
    let ghost s = input@;
    if n == 0 {
        return Err(MagnetError::UnexpectedEnd);
    }
    let prefix: [char; 7] = ['m', 'a', 'g', 'n', 'e', 't', ':'];
    assert(prefix@ == magnet_prefix());
    let start: usize = if starts_with_chars(input, prefix.as_slice()) {
        let mut q: usize = 7;
        while q < n && input.get_char(q) != '?'
            invariant
                n == s.len(),
                s == input@,
                7 <= q <= n,
                forall|k: int| 7 <= k < q ==> s[k] != '?',
            decreases n - q,
        {
            q += 1;
        }
        proof {
            lemma_find_char(s, 7, q as int, '?');
        }
        if q == n {
            return Err(MagnetError::MissingQuery);
        }
        q + 1
    } else if input.get_char(0) == '?' {
        1
    } else {
        return Err(MagnetError::MissingQuery);
    };
    let query = input.substring_char(start, n);
    assert(query@ =~= s.skip(start as int));
    let params = decode_magnet_parameters(query)?;
    let ghost ps = pairs_view(params@);
    let xt: [char; 2] = ['x', 't'];
    let dn: [char; 2] = ['d', 'n'];
    let tr: [char; 2] = ['t', 'r'];
    let info_hash_key: [char; 9] = ['i', 'n', 'f', 'o', '_', 'h', 'a', 's', 'h'];
    let file_name_key: [char; 9] = ['f', 'i', 'l', 'e', '_', 'n', 'a', 'm', 'e'];
    let announce_key: [char; 8] = ['a', 'n', 'n', 'o', 'u', 'n', 'c', 'e'];
    assert(xt@ == seq!['x', 't']);
    assert(dn@ == seq!['d', 'n']);
    assert(tr@ == seq!['t', 'r']);
    assert(info_hash_key@ == seq!['i', 'n', 'f', 'o', '_', 'h', 'a', 's', 'h']);
    assert(file_name_key@ == seq!['f', 'i', 'l', 'e', '_', 'n', 'a', 'm', 'e']);
    assert(announce_key@ == seq!['a', 'n', 'n', 'o', 'u', 'n', 'c', 'e']);
    assert(magnet_model(s) == entries_of(ps));
    let mut entries: Vec<(String, String)> = Vec::new();
    let mut i: usize = 0;
    assert(ps.take(0) =~= Seq::<(Seq<char>, Seq<char>)>::empty());
    assert(pairs_view(entries@) =~= Seq::<(Seq<char>, Seq<char>)>::empty());
    while i < params.len()
        invariant
            i <= params.len(),
            ps == pairs_view(params@),
            s == input@,
            magnet_model(s) == entries_of(ps),
            entries_of(ps.take(i as int)) == Ok::<Seq<(Seq<char>, Seq<char>)>, MagnetError>(
                pairs_view(entries@),
            ),
            xt@ == seq!['x', 't'],
            dn@ == seq!['d', 'n'],
            tr@ == seq!['t', 'r'],
            info_hash_key@ == seq!['i', 'n', 'f', 'o', '_', 'h', 'a', 's', 'h'],
            file_name_key@ == seq!['f', 'i', 'l', 'e', '_', 'n', 'a', 'm', 'e'],
            announce_key@ == seq!['a', 'n', 'n', 'o', 'u', 'n', 'c', 'e'],
        decreases params.len() - i,
    {
        let key = params[i].0.as_str();
        let value = params[i].1.as_str();
        assert(ps[i as int] == (key@, value@));
        assert(ps.take(i + 1).drop_last() =~= ps.take(i as int));
        let entry = if text_is(key, xt.as_slice()) {
            let h = match decode_info_hash(value) {
                Ok(h) => h,
                Err(e) => {
                    proof {
                        assert(ps.take(i + 1).last() == ps[i as int]);
                        assert(key@ == seq!['x', 't']);
                        assert(entry_of(ps[i as int]) == Err::<(Seq<char>, Seq<char>), MagnetError>(
                            e,
                        ));
                        assert(entries_of(ps.take(i + 1)) == Err::<
                            Seq<(Seq<char>, Seq<char>)>,
                            MagnetError,
                        >(e));
                        assert(ps =~= ps.take(i + 1) + ps.skip(i + 1));
                        lemma_entries_err_prefix(ps.take(i + 1), ps.skip(i + 1));
                    }
                    return Err(e);
                },
            };
            (text_of(info_hash_key.as_slice()), h)
        } else if text_is(key, dn.as_slice()) {
            (text_of(file_name_key.as_slice()), value.to_owned())
        } else if text_is(key, tr.as_slice()) {
            (text_of(announce_key.as_slice()), url_decode(value))
        } else {
            (key.to_owned(), value.to_owned())
        };
        let ghost before = entries@;
        entries.push(entry);
        assert(pairs_view(entries@) =~= pairs_view(before).push((entry.0@, entry.1@)));
        i += 1;
    }
    assert(ps.take(i as int) =~= ps);
    Ok(MagnetParams { entries })
}

pub open spec fn is_hex_byte(b: u8) -> bool {
    (48 <= b <= 57) || (97 <= b <= 102) || (65 <= b <= 70)
}

pub open spec fn hex_byte_val(b: u8) -> nat {
    if 48 <= b <= 57 {
        (b - 48) as nat
    } else if 97 <= b <= 102 {
        (b - 87) as nat
    } else {
        (b - 55) as nat
    }
}

/// Forty hex digits, two per byte, high digit first.
pub open spec fn hex20(data: Seq<u8>, h: Seq<u8>) -> bool {
    &&& h.len() == 20
    &&& forall|i: int|
        0 <= i < 20 ==> #[trigger] h[i] == hex_byte_val(data[2 * i]) * 16 + hex_byte_val(
            data[2 * i + 1],
        )
}

/// Relies on `hex::decode_to_slice`: it succeeds exactly when the input has twice as many
/// bytes as the output and all of them are hex digits (either case), and then writes
/// each pair of digits as one byte.
#[verifier::external_body]
fn hex_decode_20(data: &[u8]) -> (r: Option<[u8; 20]>)
    ensures
        r is Some <==> data@.len() == 40 && forall|i: int| 0 <= i < 40 ==> is_hex_byte(#[trigger] data@[i]),
        r matches Some(h) ==> hex20(data@, h@),
{
    let mut out = [0u8; 20];
    match hex::decode_to_slice(data, &mut out) {
        Ok(()) => Some(out),
        Err(_) => None,
    }
}

/// The 20 bytes of an info-hash written as 40 hex digits.
pub fn info_hash_from_hex(hash: &str) -> (r: Option<[u8; 20]>)
    ensures
        r is Some <==> hash.spec_bytes().len() == 40 && forall|i: int|
            0 <= i < 40 ==> is_hex_byte(#[trigger] hash.spec_bytes()[i]),
        r matches Some(h) ==> hex20(hash.spec_bytes(), h@),
{
    hex_decode_20(hash.as_bytes())
}

} // verus!
