//! Hexadecimal encoding of session tokens, decoding of tokens back to bytes,
//! and decoding of URL-encoded form values.
use vstd::prelude::*;
use crate::text::{chars_of, hex_pair, hex_pair_exec, hex_value, push_char, push_range};

verus! {

/// The lower-case character for a hexadecimal digit value below 16.
pub open spec fn hex_digit(n: nat) -> char {
    if n < 10 {
        (48 + n) as char
    } else {
        (87 + n) as char
    }
}

/// The lower-case hexadecimal notation of `bytes`: two characters per byte,
/// the high half first.
pub open spec fn hex_of(bytes: Seq<u8>) -> Seq<char> {
    Seq::new(
        2 * bytes.len(),
        |k: int|
            if k % 2 == 0 {
                hex_digit((bytes[k / 2] / 16) as nat)
            } else {
                hex_digit((bytes[k / 2] % 16) as nat)
            },
    )
}

fn nibble_char(n: u8) -> (c: char)
    requires
        n < 16,
    ensures
        c == hex_digit(n as nat),
{
    if n < 10 {
        (48 + n) as char
    } else {
        (87 + n) as char
    }
}

/// The lower-case hexadecimal notation of `bytes`.
pub fn to_hex(bytes: &[u8]) -> (hex: String)
    ensures
        hex@ == hex_of(bytes@),
{
    let mut hex = String::new();
    let n = bytes.len();
    let mut i: usize = 0;
    while i < n
        invariant
            n == bytes@.len(),
            i <= n,
            hex@.len() == 2 * i,
            forall|k: int| 0 <= k < 2 * i ==> hex@[k] == #[trigger] hex_of(bytes@)[k],
        decreases n - i,
    {
        let byte = bytes[i];
        assert(byte >> 4 == byte / 16 && byte & 0x0f == byte % 16) by (bit_vector);
        let ghost before = hex@;
        push_char(&mut hex, nibble_char(byte >> 4));
        push_char(&mut hex, nibble_char(byte & 0x0f));
        proof {
            assert forall|k: int| 0 <= k < 2 * (i + 1) implies hex@[k] == #[trigger] hex_of(
                bytes@,
            )[k] by {
                if k < 2 * i {
                    assert(hex@[k] == before[k]);
                } else if k == 2 * i {
                    assert(k / 2 == i);
                } else {
                    assert(k / 2 == i);
                    assert(k % 2 == 1);
                }
            }
        }
        i = i + 1;
    }
    assert(hex@ =~= hex_of(bytes@));
    hex
}

/// The notation of `n` bytes has `2 * n` characters, each a decimal digit
/// or a lower-case letter from `a` to `f`.
pub proof fn lemma_hex_chars(t: Seq<u8>)
    ensures
        hex_of(t).len() == 2 * t.len(),
        forall|i: int|
            0 <= i < hex_of(t).len() ==> {
                let c = #[trigger] hex_of(t)[i];
                &&& '0' <= c <= '9' || 'a' <= c <= 'f'
            },
{
    assert forall|i: int| 0 <= i < hex_of(t).len() implies {
        let c = #[trigger] hex_of(t)[i];
        &&& '0' <= c <= '9' || 'a' <= c <= 'f'
    } by {
        let n = if i % 2 == 0 {
            (t[i / 2] / 16) as nat
        } else {
            (t[i / 2] % 16) as nat
        };
        assert(n < 16);
        assert(hex_of(t)[i] == hex_digit(n));
    }
}

/// The 32 bytes written by the first 64 characters of `s`, two hexadecimal
/// characters per byte as `u8::from_str_radix(.., 16)` reads them; `None`
/// when `s` is shorter or a pair does not read.
pub open spec fn token_of(s: Seq<char>) -> Option<Seq<u8>> {
    if s.len() >= 64 && forall|k: int| 0 <= k < 32 ==> #[trigger] hex_pair(s[2 * k], s[2 * k + 1]) is Some {
        Some(Seq::new(32, |k: int| hex_pair(s[2 * k], s[2 * k + 1])->0))
    } else {
        None
    }
}

/// Reads a session token from the first 64 characters of `s`.
pub fn decode_token(s: &str) -> (r: Option<[u8; 32]>)
    ensures
        r matches Some(t) ==> token_of(s@) == Some(t@),
        r is None ==> token_of(s@) is None,
{
    let v = chars_of(s);
    if v.len() < 64 {
        return None;
    }
    let mut t: [u8; 32] = [0u8; 32];
    let mut k: usize = 0;
    while k < 32
        invariant
            v@ == s@,
            v@.len() >= 64,
            k <= 32,
            forall|j: int| 0 <= j < k ==> #[trigger] hex_pair(v@[2 * j], v@[2 * j + 1]) == Some(t@[j]),
        decreases 32 - k,
    {
        match hex_pair_exec(v[2 * k], v[2 * k + 1]) {
            Some(b) => {
                t[k] = b;
            },
            None => {
                return None;
            },
        }
        k = k + 1;
    }
    assert(t@ =~= Seq::new(32, |j: int| hex_pair(s@[2 * j], s@[2 * j + 1])->0));
    Some(t)
}

/// A token written with `to_hex` reads back as the same token: the session
/// file written at shutdown is read back at start-up without loss.
pub proof fn lemma_token_hex_roundtrip(t: Seq<u8>)
    requires
        t.len() == 32,
    ensures
        token_of(hex_of(t)) == Some(t),
{
    let h = hex_of(t);
    assert forall|k: int| 0 <= k < 32 implies #[trigger] hex_pair(h[2 * k], h[2 * k + 1]) == Some(
        t[k],
    ) by {
        assert((2 * k) / 2 == k);
        assert((2 * k + 1) / 2 == k);
        assert((2 * k) % 2 == 0);
        assert((2 * k + 1) % 2 == 1);
        let hi = (t[k] / 16) as nat;
        let lo = (t[k] % 16) as nat;
        assert(hex_value(hex_digit(hi)) == Some(hi));
        assert(hex_value(hex_digit(lo)) == Some(lo));
        assert(hi * 16 + lo == t[k]);
    }
    assert(Seq::new(32, |k: int| hex_pair(h[2 * k], h[2 * k + 1])->0) =~= t);
}

/// The character with the code of byte `b` (what `b as char` gives).
pub open spec fn byte_char(b: u8) -> char {
    (b as u32) as char
}

/// The decoding of a form value: `+` becomes a space and `%` followed by two
/// characters that `u8::from_str_radix(.., 16)` reads becomes the character with
/// that code; a `%` that does not start such a pair is kept, together with
/// the (at most two) characters that follow it.
pub open spec fn url_decoded(s: Seq<char>) -> Seq<char>
    decreases s.len(),
{
    if s.len() == 0 {
        seq![]
    } else if s[0] == '%' {
        if s.len() >= 3 && hex_pair(s[1], s[2]) is Some {
            seq![byte_char(hex_pair(s[1], s[2])->0)] + url_decoded(s.skip(3))
        } else if s.len() >= 3 {
            s.take(3) + url_decoded(s.skip(3))
        } else {
            s
        }
    } else if s[0] == '+' {
        seq![' '] + url_decoded(s.skip(1))
    } else {
        seq![s[0]] + url_decoded(s.skip(1))
    }
}

/// Decodes a URL-encoded form value.
pub fn url_decode(input: &String) -> (output: String)
    ensures
        output@ == url_decoded(input@),
{
    let v = chars_of(input.as_str());
    let n = v.len();
    let mut output = String::new();
    let mut i: usize = 0;
    assert(v@.skip(0) =~= v@);
    while i < n
        invariant
            n == v@.len(),
            v@ == input@,
            i <= n,
            output@ + url_decoded(v@.skip(i as int)) == url_decoded(v@),
        decreases n - i,
    {
        let ghost t = v@.skip(i as int);
        let ghost before = output@;
        let c = v[i];
        assert(t[0] == c);
        if c == '%' {
            if n - i >= 3 {
                assert(t[1] == v@[i + 1] && t[2] == v@[i + 2]);
                assert(t.skip(3) =~= v@.skip(i + 3));
                match hex_pair_exec(v[i + 1], v[i + 2]) {
                    Some(b) => {
                        push_char(&mut output, b as char);
                        assert(output@ + url_decoded(v@.skip(i + 3)) =~= before + url_decoded(t));
                    },
                    None => {
                        push_range(&mut output, v.as_slice(), i, i + 3);
                        assert(t.take(3) =~= v@.subrange(i as int, i + 3));
                        assert(output@ + url_decoded(v@.skip(i + 3)) =~= before + url_decoded(t));
                    },
                }
                i = i + 3;
            } else {
                push_range(&mut output, v.as_slice(), i, n);
                assert(t =~= v@.subrange(i as int, n as int));
                assert(v@.skip(n as int) =~= Seq::<char>::empty());
                assert(output@ + url_decoded(v@.skip(n as int)) =~= before + url_decoded(t));
                i = n;
            }
        } else {
            assert(t.skip(1) =~= v@.skip(i + 1));
            if c == '+' {
                push_char(&mut output, ' ');
            } else {
                push_char(&mut output, c);
            }
            assert(output@ + url_decoded(v@.skip(i + 1)) =~= before + url_decoded(t));
            i = i + 1;
        }
    }
    assert(v@.skip(n as int) =~= Seq::<char>::empty());
    assert(output@ =~= url_decoded(v@));
    output
}

/// A value with no `%` and no `+` decodes to itself.
pub proof fn lemma_url_decode_plain(s: Seq<char>)
    requires
        forall|i: int| 0 <= i < s.len() ==> s[i] != '%' && s[i] != '+',
    ensures
        url_decoded(s) == s,
    decreases s.len(),
{
    if s.len() > 0 {
        lemma_url_decode_plain(s.skip(1));
        assert(seq![s[0]] + s.skip(1) =~= s);
    }
}

/// Decoding never lengthens a value.
pub proof fn lemma_url_decode_shorter(s: Seq<char>)
    ensures
        url_decoded(s).len() <= s.len(),
    decreases s.len(),
{
    if s.len() >= 3 && s[0] == '%' {
        lemma_url_decode_shorter(s.skip(3));
    } else if s.len() > 0 && s[0] != '%' {
        lemma_url_decode_shorter(s.skip(1));
    }
}


/// The upper-case character for a hexadecimal digit value below 16.
pub open spec fn upper_hex_digit(n: nat) -> char {
    if n < 10 {
        (48 + n) as char
    } else {
        (55 + n) as char
    }
}

/// A `%` escape decodes to the character with the code of its byte, whether
/// its two hexadecimal digits are written in lower or in upper case: for every
/// byte `b` and whatever follows, `%` and the two digits of `b` (high half
/// first) decode to that one character, followed by the decoding of the rest.
pub proof fn lemma_url_decode_escape(b: u8, rest: Seq<char>)
    ensures
        url_decoded(seq!['%', hex_digit((b / 16) as nat), hex_digit((b % 16) as nat)] + rest)
            == seq![((b as u32) as char)] + url_decoded(rest),
        url_decoded(
            seq!['%', upper_hex_digit((b / 16) as nat), upper_hex_digit((b % 16) as nat)] + rest,
        ) == seq![((b as u32) as char)] + url_decoded(rest),
{
    let hi = (b / 16) as nat;
    let lo = (b % 16) as nat;
    assert(hi * 16 + lo == b);
    assert(hex_value(hex_digit(hi)) == Some(hi));
    assert(hex_value(hex_digit(lo)) == Some(lo));
    assert(hex_value(upper_hex_digit(hi)) == Some(hi));
    assert(hex_value(upper_hex_digit(lo)) == Some(lo));
    let s1 = seq!['%', hex_digit(hi), hex_digit(lo)] + rest;
    let s2 = seq!['%', upper_hex_digit(hi), upper_hex_digit(lo)] + rest;
    assert(s1[0] == '%' && s1[1] == hex_digit(hi) && s1[2] == hex_digit(lo));
    assert(s2[0] == '%' && s2[1] == upper_hex_digit(hi) && s2[2] == upper_hex_digit(lo));
    assert(s1.skip(3) =~= rest);
    assert(s2.skip(3) =~= rest);
    assert(hex_pair(hex_digit(hi), hex_digit(lo)) == Some(b));
    assert(hex_pair(upper_hex_digit(hi), upper_hex_digit(lo)) == Some(b));
}

/// Outside escapes, decoding goes character by character: a `+` becomes a
/// space and any other character other than `%` stays as it is, whatever follows.
pub proof fn lemma_url_decode_char(c: char, rest: Seq<char>)
    requires
        c != '%',
    ensures
        url_decoded(seq![c] + rest) == seq![if c == '+' { ' ' } else { c }] + url_decoded(rest),
{
    assert((seq![c] + rest).skip(1) =~= rest);
    assert((seq![c] + rest)[0] == c);
}

} // verus!
