use vstd::prelude::*;

verus! {

/// Relies on `String::push`: the character is appended.
#[verifier::external_body]
pub(crate) fn push_char(s: &mut String, c: char)
    ensures
        final(s)@ == old(s)@.push(c),
{
    s.push(c)
}

pub open spec fn is_hex_char(c: char) -> bool {
    ('0' <= c && c <= '9') || ('a' <= c && c <= 'f') || ('A' <= c && c <= 'F')
}

pub open spec fn hex_char_val(c: char) -> nat {
    if '0' <= c && c <= '9' {
        (c as nat - 48) as nat
    } else if 'a' <= c && c <= 'f' {
        (c as nat - 87) as nat
    } else {
        (c as nat - 55) as nat
    }
}

/// `%XY` with two hex digits becomes the character whose code is the byte `XY`; a `%`
/// not followed by two hex digits stays as it is, with what follows it.
pub open spec fn url_decoded(s: Seq<char>) -> Seq<char>
    decreases s.len(),
{
    if s.len() == 0 {
        Seq::empty()
    } else if s[0] == '%' && s.len() >= 3 {
        if is_hex_char(s[1]) && is_hex_char(s[2]) {
            seq![((hex_char_val(s[1]) * 16 + hex_char_val(s[2])) as u8) as char] + url_decoded(
                s.skip(3),
            )
        } else {
            seq![s[0], s[1], s[2]] + url_decoded(s.skip(3))
        }
    } else if s[0] == '%' {
        s
    } else {
        seq![s[0]] + url_decoded(s.skip(1))
    }
}

fn hex_value(c: char) -> (r: Option<u8>)
    ensures
        r is Some <==> is_hex_char(c),
        r matches Some(v) ==> v as nat == hex_char_val(c) && v < 16,
{
    if '0' <= c && c <= '9' {
        Some(((c as u32) - 48) as u8)
    } else if 'a' <= c && c <= 'f' {
        Some(((c as u32) - 87) as u8)
    } else if 'A' <= c && c <= 'F' {
        Some(((c as u32) - 55) as u8)
    } else {
        None
    }
}

/// Decodes percent escapes.
pub fn url_decode(input: &str) -> (r: String)
    ensures
        r@ == url_decoded(input@),
{
    let n = input.unicode_len();
    let ghost s = input@;
    let mut out = String::new();
    let mut i: usize = 0;
    assert(s.skip(0) =~= s);
    while i < n
        invariant
            n == s.len(),
            s == input@,
            i <= n,
            out@ + url_decoded(s.skip(i as int)) == url_decoded(s),
        decreases n - i,
    {
        let ghost t = s.skip(i as int);
        let ghost before = out@;
        let ch = input.get_char(i);
        assert(t[0] == ch);
        if ch == '%' {
            if n - i > 2 {
                let h1 = input.get_char(i + 1);
                let h2 = input.get_char(i + 2);
                assert(t[1] == h1 && t[2] == h2);
                assert(t.skip(3) =~= s.skip(i + 3));
                match (hex_value(h1), hex_value(h2)) {
                    (Some(a), Some(b)) => {
                        push_char(&mut out, ((a * 16 + b) as u8) as char);
                    },
                    _ => {
                        push_char(&mut out, ch);
                        push_char(&mut out, h1);
                        push_char(&mut out, h2);
                    },
                }
                assert(out@ + url_decoded(s.skip(i + 3)) =~= before + url_decoded(t));
                i += 3;
            } else {
                while i < n
                    invariant
                        n == s.len(),
                        s == input@,
                        i <= n,
                        out@ + s.skip(i as int) == url_decoded(s),
                    decreases n - i,
                {
                    let c = input.get_char(i);
                    let ghost prev = out@;
                    push_char(&mut out, c);
                    assert(prev + s.skip(i as int) =~= out@ + s.skip(i + 1));
                    i += 1;
                }
                assert(s.skip(i as int) =~= Seq::<char>::empty());
                assert(out@ =~= url_decoded(s));
                return out;
            }
        } else {
            push_char(&mut out, ch);
            assert(t.skip(1) =~= s.skip(i + 1));
            assert(out@ + url_decoded(s.skip(i + 1)) =~= before + url_decoded(t));
            i += 1;
        }
    }
    assert(s.skip(i as int) =~= Seq::<char>::empty());
    assert(out@ =~= url_decoded(s));
    out
}

/// Letters, digits and `-._~` stand for themselves in a URL.
pub open spec fn unreserved(b: u8) -> bool {
    (97 <= b <= 122) || (65 <= b <= 90) || (48 <= b <= 57) || b == 46 || b == 45 || b == 95
        || b == 126
}

pub open spec fn hex_upper(d: nat) -> char {
    if d < 10 {
        (48 + d) as char
    } else {
        (55 + d) as char
    }
}

/// Each unreserved byte as its character, every other byte as `%XY` in upper-case hex.
pub open spec fn percent_encoded(b: Seq<u8>) -> Seq<char>
    decreases b.len(),
{
    if b.len() == 0 {
        Seq::empty()
    } else {
        percent_encoded(b.drop_last()) + if unreserved(b.last()) {
            seq![b.last() as char]
        } else {
            seq!['%', hex_upper(b.last() as nat / 16), hex_upper(b.last() as nat % 16)]
        }
    }
}

fn is_unreserved(byte: u8) -> (r: bool)
    ensures
        r == unreserved(byte),
{
    (byte >= 97 && byte <= 122) || (byte >= 65 && byte <= 90) || (byte >= 48 && byte <= 57)
        || byte == 46 || byte == 45 || byte == 95 || byte == 126
}

fn hex_digit_upper(d: u8) -> (r: char)
    requires
        d < 16,
    ensures
        r == hex_upper(d as nat),
{
    if d < 10 {
        (48 + d) as char
    } else {
        (55 + d) as char
    }
}

/// Percent-encodes raw bytes (an info-hash, a peer id) for a URL query.
pub fn url_encode_bytes(bytes: &[u8]) -> (r: String)
    ensures
        r@ == percent_encoded(bytes@),
{
    let mut out = String::new();
    let mut i: usize = 0;
    assert(bytes@.take(0) =~= Seq::<u8>::empty());
    while i < bytes.len()
        invariant
            i <= bytes.len(),
            out@ == percent_encoded(bytes@.take(i as int)),
        decreases bytes.len() - i,
    {
        let b = bytes[i];
        if is_unreserved(b) {
            push_char(&mut out, b as char);
        } else {
            push_char(&mut out, '%');
            push_char(&mut out, hex_digit_upper(b / 16));
            push_char(&mut out, hex_digit_upper(b % 16));
        }
        assert(bytes@.take(i + 1).drop_last() =~= bytes@.take(i as int));
        assert(out@ =~= percent_encoded(bytes@.take(i + 1)));
        i += 1;
    }
    assert(bytes@.take(i as int) =~= bytes@);
    out
}

/// Every byte as `%XY` in upper-case hex.
pub open spec fn all_percent(b: Seq<u8>) -> Seq<char>
    decreases b.len(),
{
    if b.len() == 0 {
        Seq::empty()
    } else {
        all_percent(b.drop_last()) + seq![
            '%',
            hex_upper(b.last() as nat / 16),
            hex_upper(b.last() as nat % 16),
        ]
    }
}

/// Percent-encodes every byte, unreserved ones included.
pub fn encode_percent(bytes: &[u8]) -> (r: String)
    ensures
        r@ == all_percent(bytes@),
{
    let mut out = String::new();
    let mut i: usize = 0;
    assert(bytes@.take(0) =~= Seq::<u8>::empty());
    while i < bytes.len()
        invariant
            i <= bytes.len(),
            out@ == all_percent(bytes@.take(i as int)),
        decreases bytes.len() - i,
    {
        let b = bytes[i];
        push_char(&mut out, '%');
        push_char(&mut out, hex_digit_upper(b / 16));
        push_char(&mut out, hex_digit_upper(b % 16));
        assert(bytes@.take(i + 1).drop_last() =~= bytes@.take(i as int));
        assert(out@ =~= all_percent(bytes@.take(i + 1)));
        i += 1;
    }
    assert(bytes@.take(i as int) =~= bytes@);
    out
}

} // verus!
