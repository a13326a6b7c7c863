//! The rules that account credentials must follow, and the reading of the
//! sign-up and sign-in forms.
use vstd::prelude::*;
use crate::codec::{url_decode, url_decoded};
use crate::text::{
    byte_len, byte_len_capped, chars_of, crlf, find_from, lemma_find_from_bounds,
    lemma_find_from_first, lemma_find_from_min, lemma_find_from_none, occurs_at, owned, split_seq,
    split_string,
};

verus! {

/// The view of a check's result: `Ok` or the error message's characters.
pub open spec fn verdict_of(r: Result<(), String>) -> Result<(), Seq<char>> {
    match r {
        Ok(()) => Ok(()),
        Err(m) => Err(m@),
    }
}

// ---------------------------------------------------------------------------
// E-mail addresses
// ---------------------------------------------------------------------------

/// A character allowed in an e-mail address: ASCII letters and digits, `_`, `-`, `@`, `.`.
pub open spec fn email_char(c: char) -> bool {
    ||| 'a' <= c <= 'z'
    ||| 'A' <= c <= 'Z'
    ||| '0' <= c <= '9'
    ||| c == '_'
    ||| c == '-'
    ||| c == '@'
    ||| c == '.'
}

/// `@` or `.`, which may not start or end an address nor follow its `@`.
pub open spec fn at_or_dot(c: char) -> bool {
    c == '@' || c == '.'
}

/// The check of the host part (what follows the character after the `@`),
/// read left to right: a second `@` or two dots in a row are refused at the
/// first place they occur; the host must hold a dot.
pub open spec fn host_verdict(s: Seq<char>, prev_dot: bool, has_dot: bool) -> Result<(), Seq<char>>
    decreases s.len(),
{
    if s.len() == 0 {
        if has_dot {
            Ok(())
        } else {
            Err("No dots was found for the email host"@)
        }
    } else if s[0] == '@' {
        Err("Just one '@' is allowed in email"@)
    } else if s[0] == '.' {
        if prev_dot {
            Err("2 following dots can't be present in an email"@)
        } else {
            host_verdict(s.skip(1), true, true)
        }
    } else {
        host_verdict(s.skip(1), false, has_dot)
    }
}

/// The verdict on a non-empty e-mail address, with the message of the first rule it breaks.
pub open spec fn email_verdict(e: Seq<char>) -> Result<(), Seq<char>> {
    if byte_len(e) > 20 {
        Err("Email is too long, 20 chars max"@)
    } else if exists|i: int| 0 <= i < e.len() && !email_char(#[trigger] e[i]) {
        Err("The email contains unauthorized characters"@)
    } else if at_or_dot(e[0]) || at_or_dot(e.last()) {
        Err("The is not well formatted"@)
    } else {
        match find_from(e, seq!['@'], 0) {
            None => Err("'@' was not found in the email provided"@),
            Some(i) => if at_or_dot(e[i + 1int]) {
                Err("The is not well formatted"@)
            } else {
                host_verdict(e.skip(i + 2int), false, false)
            },
        }
    }
}

fn host_check(v: &Vec<char>, from: usize) -> (r: Result<(), String>)
    requires
        from <= v@.len(),
    ensures
        verdict_of(r) == host_verdict(v@.skip(from as int), false, false),
{
    let n = v.len();
    let mut has_dot = false;
    let mut prev_dot = false;
    let mut i = from;
    while i < n
        invariant
            n == v@.len(),
            from <= i <= n,
            host_verdict(v@.skip(i as int), prev_dot, has_dot) == host_verdict(
                v@.skip(from as int),
                false,
                false,
            ),
        decreases n - i,
    {
        let c = v[i];
        assert(v@.skip(i as int)[0] == c);
        assert(v@.skip(i as int).skip(1) =~= v@.skip(i + 1));
        if c == '@' {
            return Err(owned("Just one '@' is allowed in email"));
        } else if c == '.' {
            if prev_dot {
                return Err(owned("2 following dots can't be present in an email"));
            }
            has_dot = true;
            prev_dot = true;
        } else {
            prev_dot = false;
        }
        i = i + 1;
    }
    assert(v@.skip(n as int).len() == 0);
    if !has_dot {
        return Err(owned("No dots was found for the email host"));
    }
    Ok(())
}

/// Checks an e-mail address: at most 20 bytes, only allowed characters, one
/// `@` neither first nor last nor followed by `@` or `.`, no `.` at either end,
/// a host with a dot and no two dots in a row.
pub fn validate_email_no_regex(email: &String) -> (r: Result<(), String>)
    requires
        email@.len() > 0,
    ensures
        verdict_of(r) == email_verdict(email@),
{
    let v = chars_of(email.as_str());
    let n = v.len();
    if byte_len_capped(v.as_slice(), 20) > 20 {
        return Err(owned("Email is too long, 20 chars max"));
    }
    let mut i: usize = 0;
    while i < n
        invariant
            n == v@.len(),
            v@ == email@,
            byte_len(email@) <= 20,
            i <= n,
            forall|j: int| 0 <= j < i ==> email_char(#[trigger] v@[j]),
        decreases n - i,
    {
        let c = v[i];
        if !(('a' <= c && c <= 'z') || ('A' <= c && c <= 'Z') || ('0' <= c && c <= '9') || c == '_'
            || c == '-' || c == '@' || c == '.') {
            assert(!email_char(v@[i as int]));
            return Err(owned("The email contains unauthorized characters"));
        }
        i = i + 1;
    }
    let first = v[0];
    let last = v[n - 1];
    if first == '@' || first == '.' || last == '@' || last == '.' {
        return Err(owned("The is not well formatted"));
    }
    let mut at: usize = 0;
    while at < n && v[at] != '@'
        invariant
            n == v@.len(),
            at <= n,
            forall|j: int| 0 <= j < at ==> v@[j] != '@',
        decreases n - at,
    {
        at = at + 1;
    }
    proof {
        assert forall|j: int| 0 <= j < at implies !occurs_at(v@, seq!['@'], j) by {
            assert(v@.subrange(j, j + 1)[0] == v@[j]);
        }
    }
    if at == n {
        proof {
            lemma_find_from_none(v@, seq!['@'], 0);
        }
        return Err(owned("'@' was not found in the email provided"));
    }
    proof {
        assert(v@.subrange(at as int, at + 1) =~= seq!['@']);
        lemma_find_from_first(v@, seq!['@'], 0, at as nat);
    }
    let next = v[at + 1];
    if next == '@' || next == '.' {
        return Err(owned("The is not well formatted"));
    }
    host_check(&v, at + 2)
}

// ---------------------------------------------------------------------------
// User names and passwords
// ---------------------------------------------------------------------------

/// A character refused in user names and passwords: non-ASCII, ASCII white
/// space (tab, line feed, vertical tab, form feed, carriage return, space), or `,`.
pub open spec fn refused_char(c: char) -> bool {
    ||| !('\0' <= c && c <= '\x7f')
    ||| c == ' '
    ||| '\t' <= c <= '\r'
    ||| c == ','
}

/// A character that counts toward a password's strength: an ASCII letter, a
/// digit, or one of `! ^ ? : | ( ) { } [ ] ' - _ & $ * , % + < >`.
pub open spec fn counted_char(c: char) -> bool {
    ||| 'a' <= c <= 'z'
    ||| 'A' <= c <= 'Z'
    ||| '0' <= c <= '9'
    ||| c == '!' || c == '^' || c == '?' || c == ':' || c == '|'
    ||| c == '(' || c == ')' || c == '{' || c == '}' || c == '['
    ||| c == ']' || c == '\'' || c == '-' || c == '_' || c == '&'
    ||| c == '$' || c == '*' || c == ',' || c == '%' || c == '+'
    ||| c == '<' || c == '>'
}

/// The number of characters of `p` that count toward its strength.
pub open spec fn counted(p: Seq<char>) -> nat
    decreases p.len(),
{
    if p.len() == 0 {
        0
    } else {
        counted(p.drop_last()) + if counted_char(p.last()) {
            1nat
        } else {
            0nat
        }
    }
}

/// The verdict on sign-up credentials, with the message of the first rule
/// they break, in the order: e-mail, user-name length (1 to 12 bytes),
/// password length (8 to 15 bytes), user-name characters, password
/// characters, and at least three counted characters in the password.
pub open spec fn credentials_verdict(u: Seq<char>, p: Seq<char>, e: Seq<char>) -> Result<(), Seq<char>> {
    if email_verdict(e) is Err {
        email_verdict(e)
    } else if byte_len(u) == 0 {
        Err("Username must be equal to at least 1 char"@)
    } else if byte_len(u) > 12 {
        Err("Username max len is 12 chars"@)
    } else if byte_len(p) < 8 {
        Err("Password must be equal to at least 8 chars"@)
    } else if byte_len(p) > 15 {
        Err("Password max len is 15"@)
    } else if exists|i: int| 0 <= i < u.len() && refused_char(#[trigger] u[i]) {
        Err(
            "Username should not contain any whitespace and must be ASCII only and should not contain ','"@,
        )
    } else if exists|i: int| 0 <= i < p.len() && refused_char(#[trigger] p[i]) {
        Err("Password should not contain any whitespace and must be ASCII only"@)
    } else if counted(p) >= 3 {
        Ok(())
    } else {
        Err("Password must countain letters, numbers and special characters"@)
    }
}

fn is_refused(c: char) -> (b: bool)
    ensures
        b == refused_char(c),
{
    c > '\x7f' || c == ' ' || ('\t' <= c && c <= '\r') || c == ','
}

fn is_counted(c: char) -> (b: bool)
    ensures
        b == counted_char(c),
{
    ('a' <= c && c <= 'z') || ('A' <= c && c <= 'Z') || ('0' <= c && c <= '9') || c == '!' || c
        == '^' || c == '?' || c == ':' || c == '|' || c == '(' || c == ')' || c == '{' || c == '}'
        || c == '[' || c == ']' || c == '\'' || c == '-' || c == '_' || c == '&' || c == '$' || c
        == '*' || c == ',' || c == '%' || c == '+' || c == '<' || c == '>'
}

fn first_refused(v: &Vec<char>) -> (r: bool)
    ensures
        r == exists|i: int| 0 <= i < v@.len() && refused_char(#[trigger] v@[i]),
{
    let mut i: usize = 0;
    while i < v.len()
        invariant
            i <= v@.len(),
            forall|j: int| 0 <= j < i ==> !refused_char(#[trigger] v@[j]),
        decreases v@.len() - i,
    {
        if is_refused(v[i]) {
            return true;
        }
        i = i + 1;
    }
    false
}

proof fn lemma_counted_prefix(p: Seq<char>, k: int)
    requires
        0 <= k <= p.len(),
    ensures
        counted(p.take(k)) <= counted(p),
    decreases p.len() - k,
{
    if k < p.len() {
        lemma_counted_prefix(p, k + 1);
        assert(p.take(k + 1).drop_last() =~= p.take(k));
    } else {
        assert(p.take(k) =~= p);
    }
}

/// Checks sign-up credentials: the e-mail address, then the user name and
/// password rules, reporting the first rule broken.
pub fn legitimate_credentials(username: &String, password: &String, email: &String) -> (r: Result<
    (),
    String,
>)
    requires
        email@.len() > 0,
    ensures
        verdict_of(r) == credentials_verdict(username@, password@, email@),
{
    match validate_email_no_regex(email) {
        Err(m) => {
            return Err(m);
        },
        Ok(()) => {},
    }
    let u = chars_of(username.as_str());
    let p = chars_of(password.as_str());
    let ulen = byte_len_capped(u.as_slice(), 12);
    if ulen == 0 {
        return Err(owned("Username must be equal to at least 1 char"));
    }
    if ulen > 12 {
        return Err(owned("Username max len is 12 chars"));
    }
    let plen = byte_len_capped(p.as_slice(), 15);
    if plen < 8 {
        return Err(owned("Password must be equal to at least 8 chars"));
    }
    if plen > 15 {
        return Err(owned("Password max len is 15"));
    }
    if first_refused(&u) {
        return Err(
            owned(
                "Username should not contain any whitespace and must be ASCII only and should not contain ','",
            ),
        );
    }
    if first_refused(&p) {
        return Err(owned("Password should not contain any whitespace and must be ASCII only"));
    }
    let mut cnt: u8 = 0;
    let mut i: usize = 0;
    assert(p@.take(0) =~= Seq::<char>::empty());
    proof {
        assert(credentials_verdict(username@, password@, email@) == (if counted(p@) >= 3 {
            Ok::<(), Seq<char>>(())
        } else {
            Err("Password must countain letters, numbers and special characters"@)
        }));
    }
    while i < p.len()
        invariant
            p@ == password@,
            credentials_verdict(username@, password@, email@) == (if counted(p@) >= 3 {
                Ok::<(), Seq<char>>(())
            } else {
                Err("Password must countain letters, numbers and special characters"@)
            }),
            i <= p@.len(),
            cnt <= 2,
            cnt == counted(p@.take(i as int)),
        decreases p@.len() - i,
    {
        assert(p@.take(i + 1).drop_last() =~= p@.take(i as int));
        if is_counted(p[i]) {
            if cnt == 2 {
                proof {
                    lemma_counted_prefix(p@, i + 1);
                }
                return Ok(());
            }
            cnt = cnt + 1;
        }
        i = i + 1;
    }
    assert(p@.take(p@.len() as int) =~= p@);
    Err(owned("Password must countain letters, numbers and special characters"))
}

// ---------------------------------------------------------------------------
// Sign-up and sign-in forms
// ---------------------------------------------------------------------------

/// The values of a form of `n` fields: the last line of the request, once
/// decoded, split on `&` into exactly `n` pairs, each split on `=` into exactly
/// two parts; the values are the second parts, in order.
pub open spec fn form_values(x: Seq<char>, n: nat) -> Option<Seq<Seq<char>>> {
    let lines = split_seq(x, crlf());
    let body = url_decoded(lines.last());
    let pairs = split_seq(body, seq!['&']);
    if pairs.len() == n && forall|k: int| 0 <= k < n ==> #[trigger] split_seq(pairs[k], seq!['=']).len() == 2 {
        Some(Seq::new(n, |k: int| split_seq(pairs[k], seq!['='])[1]))
    } else {
        None
    }
}

/// The values of the form in the last line of `x`, if it has exactly `n` fields.
fn form_fields(x: &String, n: usize) -> (r: Option<Vec<String>>)
    ensures
        r matches Some(vals) ==> form_values(x@, n as nat) matches Some(f) && vals@.len() == n && (
        forall|k: int| 0 <= k < n ==> #[trigger] vals@[k]@ == f[k]),
        r is None ==> form_values(x@, n as nat) is None,
{
    let xv = chars_of(x.as_str());
    let sep_line = chars_of("\r\n");
    let sep_pair = chars_of("&");
    let sep_kv = chars_of("=");
    proof {
        reveal_strlit("\r\n");
        reveal_strlit("&");
        reveal_strlit("=");
        assert(sep_line@ =~= crlf());
        assert(sep_pair@ =~= seq!['&']);
        assert(sep_kv@ =~= seq!['=']);
    }
    let lines = split_string(xv.as_slice(), sep_line.as_slice());
    let last = url_decode(&lines[lines.len() - 1]);
    let body = chars_of(last.as_str());
    let pairs = split_string(body.as_slice(), sep_pair.as_slice());
    proof {
        assert(lines@[lines@.len() - 1]@ == split_seq(x@, crlf()).last());
        assert(body@ == url_decoded(split_seq(x@, crlf()).last()));
    }
    if pairs.len() != n {
        return None;
    }
    let mut vals: Vec<String> = Vec::new();
    let mut k: usize = 0;
    while k < n
        invariant
            pairs@.len() == n,
            body@ == url_decoded(split_seq(x@, crlf()).last()),
            n == split_seq(body@, seq!['&']).len(),
            forall|j: int| 0 <= j < pairs@.len() ==> #[trigger] pairs@[j]@ == split_seq(body@, seq!['&'])[j],
            sep_kv@ == seq!['='],
            k <= n,
            vals@.len() == k,
            forall|j: int|
                0 <= j < k ==> #[trigger] split_seq(split_seq(body@, seq!['&'])[j], seq!['=']).len() == 2,
            forall|j: int|
                0 <= j < k ==> #[trigger] vals@[j]@ == split_seq(split_seq(body@, seq!['&'])[j], seq!['='])[1],
        decreases n - k,
    {
        let pv = chars_of(pairs[k].as_str());
        let kv = split_string(pv.as_slice(), sep_kv.as_slice());
        assert(pv@ == split_seq(body@, seq!['&'])[k as int]);
        if kv.len() != 2 {
            return None;
        }
        let ghost old_vals = vals@;
        let ghost kk = k as int;
        vals.push(kv[1].clone());
        assert(kv@[1]@ == split_seq(pv@, sep_kv@)[1]);
        assert(vals@[kk]@ == split_seq(split_seq(body@, seq!['&'])[kk], seq!['='])[1]);
        assert(split_seq(split_seq(body@, seq!['&'])[kk], seq!['=']).len() == 2);
        k = k + 1;
        proof {
            assert forall|j: int|
                0 <= j < k implies #[trigger] vals@[j]@ == split_seq(split_seq(body@, seq!['&'])[j], seq!['='])[1] by {
                if j < kk {
                    assert(vals@[j] == old_vals[j]);
                }
            }
        }
    }
    proof {
        assert forall|j: int| 0 <= j < n implies #[trigger] split_seq(
            split_seq(body@, seq!['&'])[j],
            seq!['='],
        ).len() == 2 by {
        }
        let f = form_values(x@, n as nat);
        assert(f is Some);
    }
    Some(vals)
}

/// Reads the user name, password and e-mail of a sign-up form.
pub fn retrieve_sent_credentials(x: &String) -> (r: Result<(String, String, String), String>)
    ensures
        r matches Ok((u, p, e)) ==> form_values(x@, 3) == Some(seq![u@, p@, e@]),
        r matches Err(m) ==> form_values(x@, 3) is None && m@ == "Bad request format"@,
{
    match form_fields(x, 3) {
        Some(vals) => {
            let u = vals[0].clone();
            let p = vals[1].clone();
            let e = vals[2].clone();
            proof {
                let f = form_values(x@, 3)->0;
                assert(f =~= seq![u@, p@, e@]);
            }
            Ok((u, p, e))
        },
        None => Err(owned("Bad request format")),
    }
}

/// Reads the user name and password of a sign-in form.
pub fn retrieve_sent_credentials_signin(x: &String) -> (r: Result<(String, String), String>)
    ensures
        r matches Ok((u, p)) ==> form_values(x@, 2) == Some(seq![u@, p@]),
        r matches Err(m) ==> form_values(x@, 2) is None && m@ == "Bad request format"@,
{
    match form_fields(x, 2) {
        Some(vals) => {
            let u = vals[0].clone();
            let p = vals[1].clone();
            proof {
                let f = form_values(x@, 2)->0;
                assert(f =~= seq![u@, p@]);
            }
            Ok((u, p))
        },
        None => Err(owned("Bad request format")),
    }
}

// ---------------------------------------------------------------------------
// Laws of accepted credentials
// ---------------------------------------------------------------------------

proof fn lemma_host_accepted(s: Seq<char>, prev_dot: bool, has_dot: bool)
    requires
        host_verdict(s, prev_dot, has_dot) is Ok,
    ensures
        forall|i: int| 0 <= i < s.len() ==> s[i] != '@',
        prev_dot && s.len() > 0 ==> s[0] != '.',
        forall|i: int| 0 <= i < s.len() - 1 ==> !(s[i] == '.' && #[trigger] s[i + 1] == '.'),
        has_dot || exists|i: int| 0 <= i < s.len() && s[i] == '.',
    decreases s.len(),
{
    if s.len() > 0 {
        let rest = s.skip(1);
        if s[0] == '.' {
            lemma_host_accepted(rest, true, true);
        } else {
            lemma_host_accepted(rest, false, has_dot);
        }
        assert forall|i: int| 0 <= i < s.len() implies s[i] != '@' by {
            if i > 0 {
                assert(s[i] == rest[i - 1]);
            }
        }
        assert forall|i: int| 0 <= i < s.len() - 1 implies !(s[i] == '.' && #[trigger] s[i + 1]
            == '.') by {
            if i > 0 {
                assert(s[i] == rest[i - 1] && s[i + 1] == rest[i]);
            }
        }
        if !has_dot && s[0] != '.' {
            let j = choose|j: int| 0 <= j < rest.len() && rest[j] == '.';
            assert(s[j + 1] == '.');
        }
    }
}

/// An accepted e-mail address is at most 20 bytes of allowed characters,
/// with exactly one `@`, which is neither first nor last and is not followed
/// by `@` or `.`; it neither starts nor ends with `.`, and after the `@` it
/// holds a dot and never two dots in a row.
pub proof fn lemma_accepted_email(e: Seq<char>)
    requires
        e.len() > 0,
        email_verdict(e) is Ok,
    ensures
        byte_len(e) <= 20,
        forall|i: int| 0 <= i < e.len() ==> email_char(#[trigger] e[i]),
        e[0] != '.' && e.last() != '.',
        exists|a: int|
            #![trigger e[a]]
            0 < a < e.len() - 1 && e[a] == '@' && !at_or_dot(e[a + 1]) && (forall|j: int|
                0 <= j < e.len() && j != a ==> e[j] != '@') && (exists|d: int|
                a < d < e.len() && e[d] == '.') && (forall|j: int|
                a < j < e.len() - 1 ==> !(e[j] == '.' && #[trigger] e[j + 1] == '.')),
{
    let a = find_from(e, seq!['@'], 0)->0;
    lemma_find_from_bounds(e, seq!['@'], 0);
    lemma_find_from_min(e, seq!['@'], 0);
    assert(e.subrange(a as int, a + 1int)[0] == e[a as int]);
    let host = e.skip(a + 2int);
    lemma_host_accepted(host, false, false);
    assert forall|j: int| 0 <= j < e.len() && j != a implies e[j] != '@' by {
        if j < a {
            assert(!occurs_at(e, seq!['@'], j));
            assert(e.subrange(j, j + 1) =~= seq![e[j]]);
        } else if j > a + 1 {
            assert(e[j] == host[j - a - 2]);
        }
    }
    let d = choose|d: int| 0 <= d < host.len() && host[d] == '.';
    assert(e[a + 2 + d] == '.');
    assert forall|j: int| a < j < e.len() - 1 implies !(e[j] == '.' && #[trigger] e[j + 1] == '.') by {
        if j == a + 1 {
            assert(!at_or_dot(e[a + 1int]));
        } else {
            let i = j - a - 2;
            assert(e[j] == host[i] && e[j + 1] == host[i + 1]);
            assert(!(host[i] == '.' && host[i + 1] == '.'));
        }
    }
    assert(e[a as int] == '@');
}


proof fn lemma_host_ok(s: Seq<char>, prev_dot: bool, has_dot: bool)
    requires
        forall|i: int| 0 <= i < s.len() ==> s[i] != '@',
        forall|i: int| 0 <= i < s.len() - 1 ==> !(s[i] == '.' && #[trigger] s[i + 1] == '.'),
        prev_dot && s.len() > 0 ==> s[0] != '.',
        has_dot || exists|i: int| 0 <= i < s.len() && s[i] == '.',
    ensures
        host_verdict(s, prev_dot, has_dot) == Ok::<(), Seq<char>>(()),
    decreases s.len(),
{
    if s.len() > 0 {
        let rest = s.skip(1);
        assert forall|i: int| 0 <= i < rest.len() - 1 implies !(rest[i] == '.' && #[trigger] rest[i + 1] == '.') by {
            assert(rest[i] == s[i + 1] && rest[i + 1] == s[i + 2]);
        }
        if s[0] == '.' {
            if rest.len() > 0 {
                assert(rest[0] == s[1]);
            }
            lemma_host_ok(rest, true, true);
        } else {
            if !has_dot {
                let i = choose|i: int| 0 <= i < s.len() && s[i] == '.';
                assert(rest[i - 1] == '.');
            }
            lemma_host_ok(rest, false, has_dot);
        }
    }
}

/// Every address of the accepted shape is accepted: at most 20 bytes of ASCII
/// letters, digits, `_`, `-`, `.` and `@`, with exactly one `@` (at `a`),
/// neither first nor last nor followed by `.`, no `.` at either end, and after
/// the `@` at least one dot and never two dots in a row.
pub proof fn lemma_email_shape_accepted(e: Seq<char>, a: int)
    requires
        byte_len(e) <= 20,
        forall|i: int|
            0 <= i < e.len() ==> ('a' <= #[trigger] e[i] <= 'z' || 'A' <= e[i] <= 'Z' || '0' <= e[i]
                <= '9' || e[i] == '_' || e[i] == '-' || e[i] == '.' || e[i] == '@'),
        0 < a < e.len() - 1,
        e[a] == '@',
        forall|j: int| 0 <= j < e.len() && j != a ==> #[trigger] e[j] != '@',
        e[a + 1] != '.',
        e[0] != '.',
        e[e.len() - 1] != '.',
        exists|d: int| a < d < e.len() && e[d] == '.',
        forall|j: int| a < j < e.len() - 1 ==> !(e[j] == '.' && #[trigger] e[j + 1] == '.'),
    ensures
        email_verdict(e) == Ok::<(), Seq<char>>(()),
{
    assert forall|i: int| 0 <= i < e.len() implies email_char(#[trigger] e[i]) by {}
    assert(!(exists|i: int| 0 <= i < e.len() && !email_char(#[trigger] e[i])));
    assert(e[0] != '@');
    assert(e[e.len() - 1] != '@');
    assert(e.last() == e[e.len() - 1]);
    let at = seq!['@'];
    assert(e.subrange(a, a + 1) =~= at);
    assert forall|j: int| 0 <= j < a implies !occurs_at(e, at, j) by {
        if occurs_at(e, at, j) {
            assert(e.subrange(j, j + 1)[0] == e[j]);
        }
    }
    lemma_find_from_first(e, at, 0, a as nat);
    assert(e[a + 1] != '@');
    let host = e.skip(a + 2);
    assert forall|i: int| 0 <= i < host.len() implies host[i] != '@' by {
        assert(host[i] == e[a + 2 + i]);
    }
    assert forall|i: int| 0 <= i < host.len() - 1 implies !(host[i] == '.' && #[trigger] host[i + 1] == '.') by {
        assert(host[i] == e[a + 2 + i] && host[i + 1] == e[a + 2 + i + 1]);
    }
    let d = choose|d: int| a < d < e.len() && e[d] == '.';
    assert(d >= a + 2);
    assert(host[d - a - 2] == '.');
    lemma_host_ok(host, false, false);
    assert(byte_len(e) <= 20);
    assert(!at_or_dot(e[0]) && !at_or_dot(e.last()));
    assert(find_from(e, at, 0) == Some(a as nat));
    assert(!at_or_dot(e[a + 1int]));
    assert(host_verdict(e.skip(a + 2int), false, false) == Ok::<(), Seq<char>>(()));
}

proof fn lemma_counted_step(p: Seq<char>, m: int)
    requires
        0 <= m < p.len(),
    ensures
        counted(p.take(m + 1)) == counted(p.take(m)) + if counted_char(p[m]) {
            1nat
        } else {
            0nat
        },
{
    assert(p.take(m + 1).drop_last() =~= p.take(m));
    assert(p.take(m + 1).last() == p[m]);
}

proof fn lemma_counted_grows(p: Seq<char>, lo: int, hi: int)
    requires
        0 <= lo <= hi <= p.len(),
    ensures
        counted(p.take(lo)) <= counted(p.take(hi)),
{
    lemma_counted_prefix(p.take(hi), lo);
    assert(p.take(hi).take(lo) =~= p.take(lo));
}

/// Every sign-up whose user name and password follow the rules is accepted,
/// with an accepted e-mail: a user name of 1 to 12 bytes and a password of 8
/// to 15 bytes, both of ASCII characters other than white space and `,`, the
/// password holding at least three letters, digits or symbols among
/// `! ^ ? : | ( ) { } [ ] ' - _ & $ * , % + < >` (at `i`, `j` and `k`).
pub proof fn lemma_credentials_accepted(u: Seq<char>, p: Seq<char>, e: Seq<char>, i: int, j: int, k: int)
    requires
        email_verdict(e) is Ok,
        1 <= byte_len(u) <= 12,
        8 <= byte_len(p) <= 15,
        forall|m: int|
            0 <= m < u.len() ==> '\0' <= #[trigger] u[m] <= '\x7f' && u[m] != ' ' && !('\t' <= u[m]
                <= '\r') && u[m] != ',',
        forall|m: int|
            0 <= m < p.len() ==> '\0' <= #[trigger] p[m] <= '\x7f' && p[m] != ' ' && !('\t' <= p[m]
                <= '\r') && p[m] != ',',
        0 <= i < j < k < p.len(),
        forall|m: int|
            m == i || m == j || m == k ==> {
                let c = #[trigger] p[m];
                ||| 'a' <= c <= 'z'
                ||| 'A' <= c <= 'Z'
                ||| '0' <= c <= '9'
                ||| c == '!' || c == '^' || c == '?' || c == ':' || c == '|' || c == '(' || c == ')'
                ||| c == '{' || c == '}' || c == '[' || c == ']' || c == '\'' || c == '-' || c == '_'
                ||| c == '&' || c == '$' || c == '*' || c == '%' || c == '+' || c == '<' || c == '>'
            },
    ensures
        credentials_verdict(u, p, e) == Ok::<(), Seq<char>>(()),
{
    assert(!(exists|m: int| 0 <= m < u.len() && refused_char(#[trigger] u[m])));
    assert(!(exists|m: int| 0 <= m < p.len() && refused_char(#[trigger] p[m])));
    assert(counted_char(p[i]) && counted_char(p[j]) && counted_char(p[k]));
    lemma_counted_step(p, i);
    lemma_counted_grows(p, i + 1, j);
    lemma_counted_step(p, j);
    lemma_counted_grows(p, j + 1, k);
    lemma_counted_step(p, k);
    lemma_counted_prefix(p, k + 1);
    assert(counted(p) >= 3);
}

/// Accepted sign-up credentials follow the rules: a user name of 1 to 12
/// bytes and a password of 8 to 15 bytes, both of ASCII characters other than
/// white space and `,`.
pub proof fn lemma_accepted_credentials_rules(u: Seq<char>, p: Seq<char>, e: Seq<char>)
    requires
        credentials_verdict(u, p, e) is Ok,
    ensures
        email_verdict(e) is Ok,
        1 <= byte_len(u) <= 12,
        8 <= byte_len(p) <= 15,
        forall|m: int|
            0 <= m < u.len() ==> '\0' <= #[trigger] u[m] <= '\x7f' && u[m] != ' ' && !('\t' <= u[m]
                <= '\r') && u[m] != ',',
        forall|m: int|
            0 <= m < p.len() ==> '\0' <= #[trigger] p[m] <= '\x7f' && p[m] != ' ' && !('\t' <= p[m]
                <= '\r') && p[m] != ',',
{
    assert forall|m: int| 0 <= m < u.len() implies '\0' <= #[trigger] u[m] <= '\x7f' && u[m] != ' '
        && !('\t' <= u[m] <= '\r') && u[m] != ',' by {
        assert(!refused_char(u[m]));
    }
    assert forall|m: int| 0 <= m < p.len() implies '\0' <= #[trigger] p[m] <= '\x7f' && p[m] != ' '
        && !('\t' <= p[m] <= '\r') && p[m] != ',' by {
        assert(!refused_char(p[m]));
    }
}

} // verus!
