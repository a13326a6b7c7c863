//! Character-level building blocks: splitting on a separator, prefixes,
//! decimal numbers, hexadecimal digits, and UTF-8 byte lengths.
use vstd::prelude::*;

verus! {

// ---------------------------------------------------------------------------
// Strings as character sequences
// ---------------------------------------------------------------------------

/// The number of bytes of the UTF-8 encoding of `s` (what `str::len` returns).
pub open spec fn byte_len(s: Seq<char>) -> nat {
    vstd::utf8::encode_utf8(s).len()
}

/// Appends one character to a `String` (std `String::push`).
#[verifier::external_body]
pub(crate) fn push_char(s: &mut String, c: char)
    ensures
        final(s)@ == old(s)@.push(c),
{
    s.push(c);
}

/// The characters of `s`, in order.
pub fn chars_of(s: &str) -> (v: Vec<char>)
    ensures
        v@ == s@,
{
    let n = s.unicode_len();
    let mut v: Vec<char> = Vec::new();
    let mut i: usize = 0;
    while i < n
        invariant
            n == s@.len(),
            i <= n,
            v@ == s@.take(i as int),
        decreases n - i,
    {
        let c = s.get_char(i);
        v.push(c);
        i = i + 1;
        assert(v@ =~= s@.take(i as int));
    }
    assert(v@ =~= s@);
    v
}

/// Appends the characters `v[lo..hi]` to `out`.
pub fn push_range(out: &mut String, v: &[char], lo: usize, hi: usize)
    requires
        lo <= hi <= v@.len(),
    ensures
        final(out)@ == old(out)@ + v@.subrange(lo as int, hi as int),
{
    let mut i = lo;
    while i < hi
        invariant
            lo <= i <= hi <= v@.len(),
            out@ == old(out)@ + v@.subrange(lo as int, i as int),
        decreases hi - i,
    {
        push_char(out, v[i]);
        i = i + 1;
        assert(out@ =~= old(out)@ + v@.subrange(lo as int, i as int));
    }
}

/// The `String` made of the characters `v[lo..hi]`.
pub fn string_of_range(v: &[char], lo: usize, hi: usize) -> (s: String)
    requires
        lo <= hi <= v@.len(),
    ensures
        s@ == v@.subrange(lo as int, hi as int),
{
    let mut s = String::new();
    push_range(&mut s, v, lo, hi);
    assert(s@ =~= v@.subrange(lo as int, hi as int));
    s
}

/// Appends all the characters of `t` to `out`.
pub fn push_str(out: &mut String, t: &str)
    ensures
        final(out)@ == old(out)@ + t@,
{
    out.append(t);
}

/// `count` copies of `c`.
pub open spec fn repeat_char(c: char, count: nat) -> Seq<char> {
    Seq::new(count, |i: int| c)
}

/// Appends `count` copies of `c` to `out`.
pub fn push_repeat(out: &mut String, c: char, count: usize)
    ensures
        final(out)@ == old(out)@ + repeat_char(c, count as nat),
{
    let mut i: usize = 0;
    while i < count
        invariant
            i <= count,
            out@ == old(out)@ + repeat_char(c, i as nat),
        decreases count - i,
    {
        push_char(out, c);
        i = i + 1;
        assert(out@ =~= old(out)@ + repeat_char(c, i as nat));
    }
}

// ---------------------------------------------------------------------------
// Prefixes and separators
// ---------------------------------------------------------------------------

/// `p` is a prefix of `s`.
pub open spec fn has_prefix<T>(s: Seq<T>, p: Seq<T>) -> bool {
    p.len() <= s.len() && s.subrange(0, p.len() as int) == p
}

/// `sep` occurs in `s` at position `i`.
pub open spec fn occurs_at(s: Seq<char>, sep: Seq<char>, i: int) -> bool {
    0 <= i && i + sep.len() <= s.len() && s.subrange(i, i + sep.len()) == sep
}

/// The first position at or after `i` where `sep` occurs in `s`.
pub open spec fn find_from(s: Seq<char>, sep: Seq<char>, i: nat) -> Option<nat>
    decreases s.len() + 1 - i,
{
    if i + sep.len() > s.len() {
        None
    } else if s.subrange(i as int, (i + sep.len()) as int) == sep {
        Some(i)
    } else {
        find_from(s, sep, i + 1)
    }
}

/// The pieces of `s` between the occurrences of `sep`, found left to right
/// without overlap (what `str::split` yields for a non-empty pattern).
pub open spec fn split_seq(s: Seq<char>, sep: Seq<char>) -> Seq<Seq<char>>
    decreases s.len(),
{
    if sep.len() == 0 {
        seq![s]
    } else {
        match find_from(s, sep, 0) {
            None => seq![s],
            Some(i) => {
                proof {
                    lemma_find_from_bounds(s, sep, 0);
                }
                seq![s.take(i as int)] + split_seq(s.skip((i + sep.len()) as int), sep)
            },
        }
    }
}

pub proof fn lemma_find_from_bounds(s: Seq<char>, sep: Seq<char>, i: nat)
    ensures
        find_from(s, sep, i) matches Some(k) ==> i <= k && occurs_at(s, sep, k as int),
    decreases s.len() + 1 - i,
{
    if i + sep.len() > s.len() {
    } else if s.subrange(i as int, (i + sep.len()) as int) == sep {
    } else {
        lemma_find_from_bounds(s, sep, i + 1);
    }
}

/// With no occurrence in `[i, k)` and one at `k`, the search from `i` stops at `k`.
pub proof fn lemma_find_from_first(s: Seq<char>, sep: Seq<char>, i: nat, k: nat)
    requires
        i <= k,
        occurs_at(s, sep, k as int),
        forall|j: int| i <= j < k ==> !occurs_at(s, sep, j),
    ensures
        find_from(s, sep, i) == Some(k),
    decreases k - i,
{
    if i < k {
        assert(!occurs_at(s, sep, i as int));
        lemma_find_from_first(s, sep, i + 1, k);
    }
}

/// With no occurrence at or after `i`, the search from `i` finds nothing.
pub proof fn lemma_find_from_none(s: Seq<char>, sep: Seq<char>, i: nat)
    requires
        forall|j: int| i <= j ==> !occurs_at(s, sep, j),
    ensures
        find_from(s, sep, i) is None,
    decreases s.len() + 1 - i,
{
    if i + sep.len() <= s.len() {
        assert(!occurs_at(s, sep, i as int));
        lemma_find_from_none(s, sep, i + 1);
    }
}

/// Searching in a suffix of `s` is searching in `s` shifted by the suffix's start.
pub proof fn lemma_occurs_in_skip(s: Seq<char>, sep: Seq<char>, start: int, j: int)
    requires
        0 <= start <= s.len(),
    ensures
        occurs_at(s.skip(start), sep, j) <==> (0 <= j && occurs_at(s, sep, start + j)),
{
    if 0 <= j && j + sep.len() <= s.len() - start {
        assert(s.skip(start).subrange(j, j + sep.len()) =~= s.subrange(start + j, start + j + sep.len()));
    }
}

/// Whether `sep` occurs in `s` at position `i`.
pub fn occurs_at_exec(s: &[char], sep: &[char], i: usize) -> (b: bool)
    requires
        i + sep@.len() <= s@.len(),
    ensures
        b == occurs_at(s@, sep@, i as int),
{
    let m = sep.len();
    let mut k: usize = 0;
    while k < m
        invariant
            m == sep@.len(),
            i + m <= s@.len(),
            s@.len() == s.len(),
            k <= m,
            forall|j: int| 0 <= j < k ==> s@[i + j] == sep@[j],
        decreases m - k,
    {
        let idx: usize = i + k;
        if s[idx] != sep[k] {
            assert(s@.subrange(i as int, i + m)[k as int] != sep@[k as int]);
            return false;
        }
        k = k + 1;
    }
    assert(s@.subrange(i as int, i + m) =~= sep@);
    true
}

/// Whether the bytes `p` are a prefix of the bytes `s`.
pub fn has_byte_prefix(s: &[u8], p: &[u8]) -> (b: bool)
    ensures
        b == has_prefix(s@, p@),
{
    if p.len() > s.len() {
        return false;
    }
    let m = p.len();
    let mut k: usize = 0;
    while k < m
        invariant
            m == p@.len(),
            m <= s@.len(),
            k <= m,
            forall|j: int| 0 <= j < k ==> s@[j] == p@[j],
        decreases m - k,
    {
        if s[k] != p[k] {
            assert(s@.subrange(0, m as int)[k as int] != p@[k as int]);
            return false;
        }
        k = k + 1;
    }
    assert(s@.subrange(0, m as int) =~= p@);
    true
}

/// Whether the characters `p` are a prefix of the characters `s`.
pub fn has_char_prefix(s: &[char], p: &[char]) -> (b: bool)
    ensures
        b == has_prefix(s@, p@),
{
    if p.len() > s.len() {
        return false;
    }
    occurs_at_exec(s, p, 0)
}

/// The spans `(start, end)` of the pieces of `s` between the occurrences of `sep`.
pub fn split_spans(s: &[char], sep: &[char]) -> (spans: Vec<(usize, usize)>)
    requires
        sep@.len() > 0,
    ensures
        spans@.len() == split_seq(s@, sep@).len(),
        forall|k: int| 0 <= k < spans@.len() ==> #[trigger] spans@[k].0 <= spans@[k].1 <= s@.len(),
        forall|k: int|
            0 <= k < spans@.len() ==> s@.subrange(spans@[k].0 as int, spans@[k].1 as int)
                == #[trigger] split_seq(s@, sep@)[k],
{
    let n = s.len();
    let m = sep.len();
    let mut spans: Vec<(usize, usize)> = Vec::new();
    let ghost mut pieces: Seq<Seq<char>> = seq![];
    let mut start: usize = 0;
    let mut i: usize = 0;
    assert(s@.skip(0) =~= s@);
    assert(pieces + split_seq(s@.skip(0), sep@) =~= split_seq(s@, sep@));
    while i < n && m <= n - i
        invariant
            n == s@.len(),
            m == sep@.len(),
            m > 0,
            start <= i <= n,
            spans@.len() == pieces.len(),
            forall|k: int| 0 <= k < spans@.len() ==> #[trigger] spans@[k].0 <= spans@[k].1 <= s@.len(),
            forall|k: int|
                0 <= k < spans@.len() ==> s@.subrange(spans@[k].0 as int, spans@[k].1 as int)
                    == #[trigger] pieces[k],
            pieces + split_seq(s@.skip(start as int), sep@) == split_seq(s@, sep@),
            forall|j: int| start <= j < i ==> !occurs_at(s@, sep@, j),
        decreases n - i,
    {
        if occurs_at_exec(s, sep, i) {
            let ghost t = s@.skip(start as int);
            let ghost old_pieces = pieces;
            let ghost old_spans = spans@;
            proof {
                assert forall|j: int| 0 <= j < i - start implies !occurs_at(t, sep@, j) by {
                    lemma_occurs_in_skip(s@, sep@, start as int, j);
                }
                lemma_occurs_in_skip(s@, sep@, start as int, (i - start) as int);
                lemma_find_from_first(t, sep@, 0, (i - start) as nat);
                assert(t.take((i - start) as int) =~= s@.subrange(start as int, i as int));
                assert(t.skip((i - start) + m) =~= s@.skip((i + m) as int));
                assert(split_seq(t, sep@) == seq![t.take((i - start) as int)] + split_seq(
                    t.skip((i - start) + m),
                    sep@,
                ));
                pieces = pieces.push(s@.subrange(start as int, i as int));
                assert(pieces + split_seq(s@.skip((i + m) as int), sep@) =~= split_seq(s@, sep@));
            }
            spans.push((start, i));
            assert forall|k: int| 0 <= k < spans@.len() implies #[trigger] spans@[k].0 <= spans@[k].1
                <= s@.len() by {
                if k < old_spans.len() {
                    assert(spans@[k] == old_spans[k]);
                }
            }
            assert forall|k: int| 0 <= k < spans@.len() implies s@.subrange(
                spans@[k].0 as int,
                spans@[k].1 as int,
            ) == #[trigger] pieces[k] by {
                if k < old_spans.len() {
                    assert(spans@[k] == old_spans[k]);
                    assert(pieces[k] == old_pieces[k]);
                }
            }
            start = i + m;
            i = i + m;
        } else {
            i = i + 1;
        }
    }
    let ghost old_pieces = pieces;
    let ghost old_spans = spans@;
    proof {
        let t = s@.skip(start as int);
        assert forall|j: int| 0 <= j implies !occurs_at(t, sep@, j) by {
            lemma_occurs_in_skip(s@, sep@, start as int, j);
        }
        lemma_find_from_none(t, sep@, 0);
        assert(split_seq(t, sep@) == seq![t]);
        assert(t =~= s@.subrange(start as int, n as int));
        pieces = pieces.push(t);
        assert(pieces =~= split_seq(s@, sep@));
    }
    spans.push((start, n));
    assert forall|k: int| 0 <= k < spans@.len() implies #[trigger] spans@[k].0 <= spans@[k].1
        <= s@.len() by {
        if k < old_spans.len() {
            assert(spans@[k] == old_spans[k]);
        }
    }
    assert forall|k: int| 0 <= k < spans@.len() implies s@.subrange(
        spans@[k].0 as int,
        spans@[k].1 as int,
    ) == #[trigger] split_seq(s@, sep@)[k] by {
        assert(pieces[k] == split_seq(s@, sep@)[k]);
        if k < old_spans.len() {
            assert(spans@[k] == old_spans[k]);
            assert(pieces[k] == old_pieces[k]);
        }
    }
    spans
}

// ---------------------------------------------------------------------------
// Decimal numbers
// ---------------------------------------------------------------------------

/// The character of a decimal digit value below 10.
pub open spec fn digit_char(d: nat) -> char {
    (48 + d) as char
}

/// The decimal notation of `n`, without leading zeros.
pub open spec fn decimal(n: nat) -> Seq<char>
    decreases n,
{
    if n < 10 {
        seq![digit_char(n)]
    } else {
        decimal(n / 10).push(digit_char(n % 10))
    }
}

/// Appends the decimal notation of `n` to `out`.
pub fn push_decimal(out: &mut String, n: u64)
    ensures
        final(out)@ == old(out)@ + decimal(n as nat),
    decreases n,
{
    if n >= 10 {
        push_decimal(out, n / 10);
    }
    let d = (n % 10) as u8;
    push_char(out, (48 + d) as char);
    assert(out@ =~= old(out)@ + decimal(n as nat));
}

/// The decimal notation of `n` as a `String`.
pub fn decimal_string(n: u64) -> (s: String)
    ensures
        s@ == decimal(n as nat),
{
    let mut s = String::new();
    push_decimal(&mut s, n);
    assert(s@ =~= decimal(n as nat));
    s
}

/// `c` is a decimal digit.
pub open spec fn is_digit(c: char) -> bool {
    '0' <= c <= '9'
}

/// The value of a string of decimal digits (leading zeros allowed).
pub open spec fn digits_value(d: Seq<char>) -> nat
    decreases d.len(),
{
    if d.len() == 0 {
        0
    } else {
        digits_value(d.drop_last()) * 10 + (d.last() as nat - 48) as nat
    }
}

/// The digits of an unsigned number: a leading `+` is dropped when something follows it.
pub open spec fn unsigned_digits(s: Seq<char>) -> Seq<char> {
    if s.len() > 1 && s[0] == '+' {
        s.drop_first()
    } else {
        s
    }
}

/// What `str::parse::<u64>` gives: `Some` for an optional `+` followed by at
/// least one decimal digit whose value fits in a `u64`.
pub open spec fn parse_u64_spec(s: Seq<char>) -> Option<u64> {
    parse_u64_spec_digits(unsigned_digits(s))
}

proof fn lemma_digits_value_grows(d: Seq<char>, k: int)
    requires
        0 <= k <= d.len(),
        forall|i: int| 0 <= i < d.len() ==> is_digit(#[trigger] d[i]),
    ensures
        digits_value(d.take(k)) <= digits_value(d),
    decreases d.len() - k,
{
    if k < d.len() {
        lemma_digits_value_grows(d, k + 1);
        assert(d.take(k + 1).drop_last() =~= d.take(k));
        assert(d.take(k + 1).last() == d[k]);
    } else {
        assert(d.take(k) =~= d);
    }
}

/// Parses an unsigned decimal number as `str::parse::<u64>` does.
pub fn parse_u64(s: &[char]) -> (r: Option<u64>)
    ensures
        r == parse_u64_spec(s@),
{
    let n = s.len();
    let lo: usize = if n > 1 && s[0] == '+' {
        1
    } else {
        0
    };
    let ghost d = unsigned_digits(s@);
    assert(d =~= s@.skip(lo as int));
    if lo == n {
        return None;
    }
    let mut v: u64 = 0;
    let mut i = lo;
    while i < n
        invariant
            lo <= i <= n,
            n == s@.len(),
            d == unsigned_digits(s@),
            d == s@.skip(lo as int),
            forall|j: int| 0 <= j < i - lo ==> is_digit(#[trigger] d[j]),
            v as nat == digits_value(d.take(i - lo)),
        decreases n - i,
    {
        let c = s[i];
        assert(d[i - lo] == c);
        if !('0' <= c && c <= '9') {
            assert(!is_digit(d[i - lo]));
            assert(parse_u64_spec_digits(d) is None);
            return None;
        }
        assert(d.take(i - lo + 1).drop_last() =~= d.take(i - lo));
        assert(d.take(i - lo + 1).last() == c);
        let dv = (c as u32 - 48) as u64;
        assert(digits_value(d.take(i - lo + 1)) == v * 10 + dv);
        match v.checked_mul(10) {
            Some(v10) => match v10.checked_add(dv) {
                Some(nv) => {
                    v = nv;
                },
                None => {
                    proof {
                        digits_overflow(d, (i - lo + 1) as int);
                    }
                    return None;
                },
            },
            None => {
                proof {
                    digits_overflow(d, (i - lo + 1) as int);
                }
                return None;
            },
        }
        i = i + 1;
    }
    assert(d.take(n - lo) =~= d);
    Some(v)
}

/// Once a prefix of the digits exceeds `u64::MAX`, the whole does too (or a
/// later character is not a digit).
proof fn digits_overflow(d: Seq<char>, k: int)
    requires
        0 < k <= d.len(),
        digits_value(d.take(k)) > u64::MAX,
    ensures
        parse_u64_spec_digits(d) is None,
{
    if forall|i: int| 0 <= i < d.len() ==> is_digit(#[trigger] d[i]) {
        lemma_digits_value_grows(d, k);
    }
}

/// The digits part of `parse_u64_spec`.
pub open spec fn parse_u64_spec_digits(d: Seq<char>) -> Option<u64> {
    if d.len() > 0 && (forall|i: int| 0 <= i < d.len() ==> is_digit(#[trigger] d[i]))
        && digits_value(d) <= u64::MAX {
        Some(digits_value(d) as u64)
    } else {
        None
    }
}

// ---------------------------------------------------------------------------
// Hexadecimal digits
// ---------------------------------------------------------------------------

/// The value of a hexadecimal digit (either case), if `c` is one.
pub open spec fn hex_value(c: char) -> Option<nat> {
    if '0' <= c <= '9' {
        Some((c as nat - 48) as nat)
    } else if 'a' <= c <= 'f' {
        Some((c as nat - 87) as nat)
    } else if 'A' <= c <= 'F' {
        Some((c as nat - 55) as nat)
    } else {
        None
    }
}

/// What `u8::from_str_radix` gives in base 16 for the two characters `c1 c2`:
/// two hexadecimal digits, or a `+` sign followed by one.
pub open spec fn hex_pair(c1: char, c2: char) -> Option<u8> {
    match (hex_value(c1), hex_value(c2)) {
        (Some(h), Some(l)) => Some((h * 16 + l) as u8),
        (None, Some(l)) => if c1 == '+' {
            Some(l as u8)
        } else {
            None
        },
        _ => None,
    }
}

pub fn hex_value_exec(c: char) -> (r: Option<u8>)
    ensures
        r matches Some(v) ==> hex_value(c) == Some(v as nat),
        r is None ==> hex_value(c) is None,
{
    if '0' <= c && c <= '9' {
        Some((c as u32 - 48) as u8)
    } else if 'a' <= c && c <= 'f' {
        Some((c as u32 - 87) as u8)
    } else if 'A' <= c && c <= 'F' {
        Some((c as u32 - 55) as u8)
    } else {
        None
    }
}

/// Decodes two characters as `u8::from_str_radix(.., 16)` does.
pub fn hex_pair_exec(c1: char, c2: char) -> (r: Option<u8>)
    ensures
        r == hex_pair(c1, c2),
{
    match (hex_value_exec(c1), hex_value_exec(c2)) {
        (Some(h), Some(l)) => Some(h * 16 + l),
        (None, Some(l)) => if c1 == '+' {
            Some(l)
        } else {
            None
        },
        _ => None,
    }
}

} // verus!

verus! {

/// A `String` with the characters of `s`.
pub fn owned(s: &str) -> (r: String)
    ensures
        r@ == s@,
{
    s.to_owned()
}

/// The pieces of `s` between the occurrences of `sep`, as `String`s.
pub fn split_string(s: &[char], sep: &[char]) -> (pieces: Vec<String>)
    requires
        sep@.len() > 0,
    ensures
        pieces@.len() == split_seq(s@, sep@).len(),
        forall|k: int| 0 <= k < pieces@.len() ==> #[trigger] pieces@[k]@ == split_seq(s@, sep@)[k],
{
    let spans = split_spans(s, sep);
    let mut pieces: Vec<String> = Vec::new();
    let mut k: usize = 0;
    while k < spans.len()
        invariant
            spans@.len() == split_seq(s@, sep@).len(),
            forall|j: int| 0 <= j < spans@.len() ==> #[trigger] spans@[j].0 <= spans@[j].1 <= s@.len(),
            forall|j: int|
                0 <= j < spans@.len() ==> s@.subrange(spans@[j].0 as int, spans@[j].1 as int)
                    == #[trigger] split_seq(s@, sep@)[j],
            k <= spans@.len(),
            pieces@.len() == k,
            forall|j: int| 0 <= j < k ==> #[trigger] pieces@[j]@ == split_seq(s@, sep@)[j],
        decreases spans@.len() - k,
    {
        let (lo, hi) = spans[k];
        assert(s@.subrange(lo as int, hi as int) == split_seq(s@, sep@)[k as int]);
        let piece = string_of_range(s, lo, hi);
        pieces.push(piece);
        k = k + 1;
    }
    pieces
}

/// The number of bytes that `c` takes in UTF-8.
pub open spec fn char_width(c: char) -> nat {
    if (c as u32) < 0x80 {
        1
    } else if (c as u32) < 0x800 {
        2
    } else if (c as u32) < 0x10000 {
        3
    } else {
        4
    }
}

pub proof fn lemma_byte_len_first(s: Seq<char>)
    requires
        s.len() > 0,
    ensures
        byte_len(s) == char_width(s[0]) + byte_len(s.drop_first()),
{
    vstd::utf8::char_is_scalar(s[0]);
}

pub proof fn lemma_byte_len_concat(a: Seq<char>, b: Seq<char>)
    ensures
        byte_len(a + b) == byte_len(a) + byte_len(b),
    decreases a.len(),
{
    if a.len() == 0 {
        assert(a + b =~= b);
    } else {
        lemma_byte_len_concat(a.drop_first(), b);
        assert((a + b).drop_first() =~= a.drop_first() + b);
        lemma_byte_len_first(a + b);
        lemma_byte_len_first(a);
    }
}

pub proof fn lemma_byte_len_empty(s: Seq<char>)
    ensures
        byte_len(s) == 0 <==> s.len() == 0,
{
    if s.len() > 0 {
        lemma_byte_len_first(s);
    }
}

/// The UTF-8 length of `s`, or `cap + 1` when it is larger than `cap`.
pub fn byte_len_capped(s: &[char], cap: usize) -> (n: usize)
    requires
        cap < usize::MAX - 4,
    ensures
        byte_len(s@) <= cap ==> n == byte_len(s@),
        byte_len(s@) > cap ==> n == cap + 1,
{
    let len = s.len();
    let mut total: usize = 0;
    let mut i: usize = 0;
    assert(s@.take(0) =~= Seq::<char>::empty());
    while i < len
        invariant
            len == s@.len(),
            i <= len,
            cap < usize::MAX - 4,
            total == byte_len(s@.take(i as int)),
            total <= cap,
        decreases len - i,
    {
        let c = s[i];
        let w: usize = if (c as u32) < 0x80 {
            1
        } else if (c as u32) < 0x800 {
            2
        } else if (c as u32) < 0x10000 {
            3
        } else {
            4
        };
        proof {
            assert(s@.take(i + 1) =~= s@.take(i as int) + seq![c]);
            lemma_byte_len_concat(s@.take(i as int), seq![c]);
            lemma_byte_len_first(seq![c]);
            assert(seq![c].drop_first() =~= Seq::<char>::empty());
        }
        total = total + w;
        i = i + 1;
        if total > cap {
            proof {
                assert(s@ =~= s@.take(i as int) + s@.skip(i as int));
                lemma_byte_len_concat(s@.take(i as int), s@.skip(i as int));
            }
            return cap + 1;
        }
    }
    assert(s@.take(len as int) =~= s@);
    total
}

/// The UTF-8 length of `s`, as `str::len` reports it.
pub fn byte_len_exec(s: &String) -> (n: usize)
    ensures
        n == byte_len(s@) as usize,
{
    s.as_str().len()
}

/// `"\r\n"`, the line separator of HTTP requests.
pub open spec fn crlf() -> Seq<char> {
    seq!['\r', '\n']
}

} // verus!

verus! {

/// When the first character of `sep` does not occur in `a`, splitting
/// `a + sep + b` on `sep` gives `a` and then the pieces of `b`.
pub proof fn lemma_split_first(a: Seq<char>, sep: Seq<char>, b: Seq<char>)
    requires
        sep.len() > 0,
        forall|i: int| 0 <= i < a.len() ==> a[i] != sep[0],
    ensures
        split_seq(a + sep + b, sep) == seq![a] + split_seq(b, sep),
{
    let s = a + sep + b;
    assert forall|j: int| 0 <= j < a.len() implies !occurs_at(s, sep, j) by {
        if occurs_at(s, sep, j) {
            assert(s.subrange(j, j + sep.len())[0] == s[j]);
        }
    }
    assert(s.subrange(a.len() as int, (a.len() + sep.len()) as int) =~= sep);
    lemma_find_from_first(s, sep, 0, a.len());
    assert(s.take(a.len() as int) =~= a);
    assert(s.skip((a.len() + sep.len()) as int) =~= b);
}

/// When the first character of `sep` does not occur in `a`, splitting `a`
/// on `sep` gives `a` alone.
pub proof fn lemma_split_whole(a: Seq<char>, sep: Seq<char>)
    requires
        sep.len() > 0,
        forall|i: int| 0 <= i < a.len() ==> a[i] != sep[0],
    ensures
        split_seq(a, sep) == seq![a],
{
    assert forall|j: int| 0 <= j implies !occurs_at(a, sep, j) by {
        if occurs_at(a, sep, j) {
            assert(a.subrange(j, j + sep.len())[0] == a[j]);
        }
    }
    lemma_find_from_none(a, sep, 0);
}

} // verus!

verus! {

/// The search from `i` skips no occurrence: none lies between `i` and what it finds.
pub proof fn lemma_find_from_min(s: Seq<char>, sep: Seq<char>, i: nat)
    ensures
        find_from(s, sep, i) matches Some(k) ==> forall|j: int| i <= j < k ==> !occurs_at(s, sep, j),
        find_from(s, sep, i) is None ==> forall|j: int| i <= j ==> !occurs_at(s, sep, j),
    decreases s.len() + 1 - i,
{
    if i + sep.len() > s.len() {
    } else if s.subrange(i as int, (i + sep.len()) as int) == sep {
    } else {
        lemma_find_from_min(s, sep, i + 1);
    }
}


/// The pieces joined back together with `c` between consecutive ones.
pub open spec fn join_with(pieces: Seq<Seq<char>>, c: char) -> Seq<char>
    decreases pieces.len(),
{
    if pieces.len() == 0 {
        seq![]
    } else if pieces.len() == 1 {
        pieces[0]
    } else {
        pieces[0] + seq![c] + join_with(pieces.drop_first(), c)
    }
}

/// Splitting on one character loses nothing: the pieces, none of which holds
/// the character, join back into the whole.
pub proof fn lemma_split_join(s: Seq<char>, c: char)
    ensures
        split_seq(s, seq![c]).len() > 0,
        join_with(split_seq(s, seq![c]), c) == s,
        forall|k: int, j: int|
            0 <= k < split_seq(s, seq![c]).len() && 0 <= j < split_seq(s, seq![c])[k].len()
                ==> #[trigger] split_seq(s, seq![c])[k][j] != c,
    decreases s.len(),
{
    let sep = seq![c];
    let pieces = split_seq(s, sep);
    lemma_find_from_bounds(s, sep, 0);
    lemma_find_from_min(s, sep, 0);
    match find_from(s, sep, 0) {
        None => {
            assert(pieces == seq![s]);
            assert forall|j: int| 0 <= j < s.len() implies s[j] != c by {
                if s[j] == c {
                    assert(s.subrange(j, j + 1) =~= sep);
                    assert(occurs_at(s, sep, j));
                }
            }
        },
        Some(i) => {
            let head = s.take(i as int);
            let tail = s.skip(i + 1int);
            lemma_split_join(tail, c);
            let rest = split_seq(tail, sep);
            assert(pieces == seq![head] + rest);
            assert(s.subrange(i as int, i + 1int)[0] == s[i as int]);
            assert(s =~= head + sep + tail);
            assert(pieces.drop_first() =~= rest);
            assert(join_with(pieces, c) == head + seq![c] + join_with(rest, c));
            assert forall|k: int, j: int|
                0 <= k < pieces.len() && 0 <= j < pieces[k].len() implies #[trigger] pieces[k][j] != c by {
                if k == 0 {
                    assert(pieces[0] == head);
                    if head[j] == c {
                        assert(s.subrange(j, j + 1) =~= sep);
                        assert(occurs_at(s, sep, j));
                    }
                } else {
                    assert(pieces[k] == rest[k - 1]);
                }
            }
        },
    }
}

/// The decimal notation of a number is made of decimal digits.
pub proof fn lemma_decimal_digits(n: nat)
    ensures
        decimal(n).len() > 0,
        forall|i: int| 0 <= i < decimal(n).len() ==> is_digit(#[trigger] decimal(n)[i]),
    decreases n,
{
    if n >= 10 {
        lemma_decimal_digits(n / 10);
        let d = decimal(n / 10);
        assert forall|i: int| 0 <= i < decimal(n).len() implies is_digit(#[trigger] decimal(n)[i]) by {
            if i < d.len() {
                assert(decimal(n)[i] == d[i]);
            }
        }
    }
}

/// A string of ASCII characters takes one byte per character.
pub proof fn lemma_ascii_byte_len(s: Seq<char>)
    requires
        forall|i: int| 0 <= i < s.len() ==> '\0' <= #[trigger] s[i] && s[i] <= '\x7f',
    ensures
        byte_len(s) == s.len(),
{
    assert(vstd::utf8::is_ascii_chars(s));
    vstd::utf8::is_ascii_chars_encode_utf8(s);
}


/// Each character takes one to four bytes.
pub proof fn lemma_byte_len_bounds(s: Seq<char>)
    ensures
        s.len() <= byte_len(s) <= 4 * s.len(),
    decreases s.len(),
{
    if s.len() == 0 {
        lemma_byte_len_empty(s);
    } else {
        lemma_byte_len_first(s);
        lemma_byte_len_bounds(s.drop_first());
    }
}

} // verus!
