//! The account database: one line per account, `user,password,email,used,max`
//! with the first three fields padded with spaces to 12, 15 and 20 bytes and
//! the token counts written with ten digits.
use vstd::prelude::*;
use crate::credentials::{
    credentials_verdict, email_char, email_verdict, legitimate_credentials, refused_char, verdict_of,
};
use crate::session::{first_prefixed, lemma_first_prefixed_skip};
use crate::text::{
    byte_len, byte_len_capped, chars_of, decimal, decimal_string, has_char_prefix, has_prefix,
    digits_value, is_digit, lemma_split_first, lemma_split_whole, owned, parse_u64, parse_u64_spec,
    parse_u64_spec_digits, push_decimal, push_repeat, push_str, repeat_char, split_seq, split_string,
    unsigned_digits, join_with, lemma_ascii_byte_len, lemma_byte_len_bounds, lemma_byte_len_concat,
    lemma_decimal_digits, lemma_split_join, digit_char,
};

verus! {

/// The characters of each line.
pub open spec fn lines_view(lines: Seq<String>) -> Seq<Seq<char>> {
    Seq::new(lines.len(), |i: int| lines[i]@)
}

/// `s` followed by spaces up to `width` bytes.
pub open spec fn pad_to(s: Seq<char>, width: nat) -> Seq<char> {
    s + repeat_char(' ', (width - byte_len(s)) as nat)
}

/// The fields of a database line.
pub open spec fn line_fields(l: Seq<char>) -> Seq<Seq<char>> {
    split_seq(l, seq![','])
}

/// The database line of a new account: no token used, one allowed.
pub open spec fn db_record(u: Seq<char>, p: Seq<char>, e: Seq<char>) -> Seq<char> {
    pad_to(u, 12) + seq![','] + pad_to(p, 15) + seq![','] + pad_to(e, 20) + ",0000000000,0000000001"@
}

/// The outcome of a sign-up given the database lines read (`read_failed` when
/// reading stopped on an error after them): the line to append, or why not.
pub open spec fn add_user_outcome(
    u: Seq<char>,
    p: Seq<char>,
    e: Seq<char>,
    lines: Seq<Seq<char>>,
    read_failed: bool,
) -> Result<Seq<char>, Seq<char>> {
    if credentials_verdict(u, p, e) is Err {
        Err(credentials_verdict(u, p, e)->Err_0)
    } else if exists|k: int| 0 <= k < lines.len() && has_prefix(#[trigger] lines[k], u) {
        Err("Username already taken"@)
    } else if read_failed {
        Err("failed to read from 'db.txt'"@)
    } else {
        Ok(db_record(u, p, e))
    }
}

/// The view of a `Result` carrying a `String` either way.
pub open spec fn string_result_view(r: Result<String, String>) -> Result<Seq<char>, Seq<char>> {
    match r {
        Ok(s) => Ok(s@),
        Err(m) => Err(m@),
    }
}

fn pad_into(out: &mut String, s: &String, width: usize)
    requires
        byte_len(s@) <= width,
        width < 100,
    ensures
        final(out)@ == old(out)@ + pad_to(s@, width as nat),
{
    let v = chars_of(s.as_str());
    let n = byte_len_capped(v.as_slice(), width);
    push_str(out, s.as_str());
    push_repeat(out, ' ', width - n);
    assert(final(out)@ =~= old(out)@ + pad_to(s@, width as nat));
}

/// Checks a sign-up against the database lines read, and gives the line to
/// append for the new account.
pub fn add_user(
    username: &String,
    password: &String,
    email: &String,
    lines: &Vec<String>,
    read_failed: bool,
) -> (r: Result<String, String>)
    requires
        email@.len() > 0,
    ensures
        string_result_view(r) == add_user_outcome(
            username@,
            password@,
            email@,
            lines_view(lines@),
            read_failed,
        ),
{
    match legitimate_credentials(username, password, email) {
        Err(m) => {
            return Err(m);
        },
        Ok(()) => {},
    }
    let u = chars_of(username.as_str());
    let mut k: usize = 0;
    while k < lines.len()
        invariant
            u@ == username@,
            credentials_verdict(username@, password@, email@) is Ok,
            k <= lines@.len(),
            forall|j: int| 0 <= j < k ==> !has_prefix(#[trigger] lines_view(lines@)[j], username@),
        decreases lines@.len() - k,
    {
        let l = chars_of(lines[k].as_str());
        if has_char_prefix(l.as_slice(), u.as_slice()) {
            assert(has_prefix(lines_view(lines@)[k as int], username@));
            return Err(owned("Username already taken"));
        }
        k = k + 1;
    }
    if read_failed {
        return Err(owned("failed to read from 'db.txt'"));
    }
    let mut line = String::new();
    pad_into(&mut line, username, 12);
    push_str(&mut line, ",");
    pad_into(&mut line, password, 15);
    push_str(&mut line, ",");
    pad_into(&mut line, email, 20);
    push_str(&mut line, ",0000000000,0000000001");
    proof {
        reveal_strlit(",");
        assert(line@ =~= db_record(username@, password@, email@));
    }
    Ok(line)
}

/// The message given when the new line could not be appended.
pub fn append_failure() -> (m: String)
    ensures
        m@ == "Error appending to db.txt"@,
{
    owned("Error appending to db.txt")
}

// ---------------------------------------------------------------------------
// Sign-in
// ---------------------------------------------------------------------------

/// The first line at or after `i` that is malformed (not five fields) or holds
/// the user name and password.
pub open spec fn login_stop(lines: Seq<Seq<char>>, u: Seq<char>, p: Seq<char>, i: nat) -> Option<nat>
    decreases lines.len() - i,
{
    if i >= lines.len() {
        None
    } else if line_fields(lines[i as int]).len() != 5 || (line_fields(lines[i as int])[0] == u
        && line_fields(lines[i as int])[1] == p) {
        Some(i)
    } else {
        login_stop(lines, u, p, i + 1)
    }
}

/// The outcome of checking a user name and password (both already padded)
/// against the database lines read. `None` when the line counter, a byte,
/// would pass 255: the scan goes no further than 256 lines.
pub open spec fn login_outcome(
    lines: Seq<Seq<char>>,
    u: Seq<char>,
    p: Seq<char>,
    read_failed: bool,
) -> Option<Result<(), Seq<char>>> {
    match login_stop(lines, u, p, 0) {
        Some(k) => if k >= 256 {
            None
        } else if line_fields(lines[k as int]).len() != 5 {
            Some(Err("Error in 'db.txt' at line "@ + decimal(k)))
        } else {
            Some(Ok(()))
        },
        None => if lines.len() >= 256 {
            None
        } else if read_failed {
            Some(Err("Error"@))
        } else {
            Some(Err("Credentials not valid"@))
        },
    }
}

proof fn lemma_login_stop_after(lines: Seq<Seq<char>>, u: Seq<char>, p: Seq<char>, i: nat)
    ensures
        login_stop(lines, u, p, i) matches Some(k) ==> i <= k,
    decreases lines.len() - i,
{
    if i < lines.len() {
        lemma_login_stop_after(lines, u, p, i + 1);
    }
}

proof fn lemma_login_stop_skip(lines: Seq<Seq<char>>, u: Seq<char>, p: Seq<char>, i: nat)
    requires
        i < lines.len(),
        line_fields(lines[i as int]).len() == 5,
        !(line_fields(lines[i as int])[0] == u && line_fields(lines[i as int])[1] == p),
    ensures
        login_stop(lines, u, p, i) == login_stop(lines, u, p, i + 1),
{
}

/// Checks a user name and password against the database lines read.
pub fn verify_credentials(
    username: &String,
    password: &String,
    lines: &Vec<String>,
    read_failed: bool,
) -> (r: Option<Result<(), String>>)
    ensures
        r matches Some(v) ==> login_outcome(lines_view(lines@), username@, password@, read_failed)
            == Some(verdict_of(v)),
        r is None ==> login_outcome(lines_view(lines@), username@, password@, read_failed) is None,
{
    let comma = chars_of(",");
    proof {
        reveal_strlit(",");
        assert(comma@ =~= seq![',']);
    }
    let ghost lv = lines_view(lines@);
    let mut cnt: u8 = 0;
    let mut k: usize = 0;
    while k < lines.len()
        invariant
            lv == lines_view(lines@),
            comma@ == seq![','],
            k <= lines@.len(),
            k < 256,
            cnt == k,
            login_stop(lv, username@, password@, 0) == login_stop(lv, username@, password@, k as nat),
        decreases lines@.len() - k,
    {
        let l = chars_of(lines[k].as_str());
        let x = split_string(l.as_slice(), comma.as_slice());
        assert(l@ == lv[k as int]);
        if x.len() != 5 {
            let mut m = owned("Error in 'db.txt' at line ");
            push_decimal(&mut m, cnt as u64);
            return Some(Err(m));
        }
        if x[0] == *username {
            if x[1] == *password {
                return Some(Ok(()));
            }
        }
        proof {
            lemma_login_stop_skip(lv, username@, password@, k as nat);
        }
        if cnt == 255 {
            proof {
                lemma_login_stop_after(lv, username@, password@, 256);
            }
            return None;
        }
        cnt = cnt + 1;
        k = k + 1;
    }
    if read_failed {
        return Some(Err(owned("Error")));
    }
    Some(Err(owned("Credentials not valid")))
}

// ---------------------------------------------------------------------------
// Token quotas
// ---------------------------------------------------------------------------

/// The start of the database line of user `u`: the name padded to 12 bytes and a comma.
pub open spec fn user_key(u: Seq<char>) -> Seq<char> {
    pad_to(u, 12) + seq![',']
}

/// The quota of a database line at index `k`: the index, the first three
/// fields joined by commas, and the used and allowed counts as written, when
/// fewer tokens are used than allowed.
pub open spec fn quota_of_line(line: Seq<char>, k: nat) -> Result<(nat, Seq<char>, Seq<char>, Seq<char>), Seq<char>> {
    let f = line_fields(line);
    if f.len() != 5 {
        Err("Error in 'databases/db.txt' at line "@ + decimal(k))
    } else if parse_u64_spec(f[3]) is None {
        Err("Error while parsing current tokens for user: "@ + f[0])
    } else if parse_u64_spec(f[4]) is None {
        Err("Error while parsing max tokens for user: "@ + f[0])
    } else if parse_u64_spec(f[3])->0 >= parse_u64_spec(f[4])->0 {
        Err("Not enough tokens"@)
    } else {
        Ok((k, f[0] + seq![','] + f[1] + seq![','] + f[2], f[3], f[4]))
    }
}

/// The quota of user `u` in the database lines read, found on the first line
/// that starts with the user's key. `None` when the name is longer than 12
/// bytes.
pub open spec fn tokens_outcome(u: Seq<char>, lines: Seq<Seq<char>>, read_failed: bool) -> Option<
    Result<(nat, Seq<char>, Seq<char>, Seq<char>), Seq<char>>,
> {
    if byte_len(u) > 12 {
        None
    } else {
        match first_prefixed(lines, user_key(u), 0) {
            None => Some(
                Err(
                    if read_failed {
                        "Eror reading 'databases/db.txt'"@
                    } else {
                        "Could not locate the username"@
                    },
                ),
            ),
            Some(k) => Some(quota_of_line(lines[k as int], k)),
        }
    }
}

/// The view of a quota.
pub open spec fn quota_view(r: Result<(usize, String, String, String), String>) -> Result<
    (nat, Seq<char>, Seq<char>, Seq<char>),
    Seq<char>,
> {
    match r {
        Ok((k, c, u, m)) => Ok((k as nat, c@, u@, m@)),
        Err(e) => Err(e@),
    }
}

fn line_quota(line: &String, k: usize) -> (r: Result<(usize, String, String, String), String>)
    ensures
        quota_view(r) == quota_of_line(line@, k as nat),
{
    let comma = chars_of(",");
    proof {
        reveal_strlit(",");
        assert(comma@ =~= seq![',']);
    }
    let l = chars_of(line.as_str());
    let f = split_string(l.as_slice(), comma.as_slice());
    if f.len() != 5 {
        let mut m = owned("Error in 'databases/db.txt' at line ");
        push_decimal(&mut m, k as u64);
        return Err(m);
    }
    let used = chars_of(f[3].as_str());
    let max = chars_of(f[4].as_str());
    let now_tokens = match parse_u64(used.as_slice()) {
        Some(v) => v,
        None => {
            let mut m = owned("Error while parsing current tokens for user: ");
            push_str(&mut m, f[0].as_str());
            return Err(m);
        },
    };
    let max_tokens = match parse_u64(max.as_slice()) {
        Some(v) => v,
        None => {
            let mut m = owned("Error while parsing max tokens for user: ");
            push_str(&mut m, f[0].as_str());
            return Err(m);
        },
    };
    if now_tokens >= max_tokens {
        return Err(owned("Not enough tokens"));
    }
    let mut cred = f[0].clone();
    push_str(&mut cred, ",");
    push_str(&mut cred, f[1].as_str());
    push_str(&mut cred, ",");
    push_str(&mut cred, f[2].as_str());
    proof {
        assert(cred@ =~= f@[0]@ + seq![','] + f@[1]@ + seq![','] + f@[2]@);
    }
    Ok((k, cred, f[3].clone(), f[4].clone()))
}

/// Finds the quota of a user in the database lines read.
pub fn verify_tokens(username: &String, lines: &Vec<String>, read_failed: bool) -> (r: Option<
    Result<(usize, String, String, String), String>,
>)
    ensures
        r matches Some(q) ==> tokens_outcome(username@, lines_view(lines@), read_failed) == Some(
            quota_view(q),
        ),
        r is None ==> tokens_outcome(username@, lines_view(lines@), read_failed) is None,
{
    let u = chars_of(username.as_str());
    let ulen = byte_len_capped(u.as_slice(), 12);
    if ulen > 12 {
        return None;
    }
    let mut key = username.clone();
    push_repeat(&mut key, ' ', 12 - ulen);
    push_str(&mut key, ",");
    proof {
        reveal_strlit(",");
        assert(key@ =~= user_key(username@));
    }
    let kv = chars_of(key.as_str());
    let ghost lv = lines_view(lines@);
    let mut k: usize = 0;
    while k < lines.len()
        invariant
            lv == lines_view(lines@),
            kv@ == user_key(username@),
            byte_len(username@) <= 12,
            k <= lines@.len(),
            first_prefixed(lv, user_key(username@), 0) == first_prefixed(lv, user_key(username@), k as nat),
        decreases lines@.len() - k,
    {
        let l = chars_of(lines[k].as_str());
        assert(l@ == lv[k as int]);
        if has_char_prefix(l.as_slice(), kv.as_slice()) {
            return Some(line_quota(&lines[k], k));
        }
        proof {
            lemma_first_prefixed_skip(lv, user_key(username@), k as nat, (k + 1) as nat);
        }
        k = k + 1;
    }
    if read_failed {
        return Some(Err(owned("Eror reading 'databases/db.txt'")));
    }
    Some(Err(owned("Could not locate the username")))
}

/// The bytes that each database line takes in the file: fields of 12, 15,
/// 20, 10 and 10 bytes, four commas, and the newline.
pub open spec fn line_len() -> nat {
    72
}

/// A token count written with at least ten digits, zeros in front.
pub open spec fn count_field(n: nat) -> Seq<char> {
    repeat_char('0', (10 - decimal(n).len()) as nat) + decimal(n)
}

/// The write that records `incr` more used tokens on a quota line: its byte
/// offset (the index times the line length) and the new line, the used count
/// written with at least ten digits. `None` when the count or the offset overflows, or the
/// count needs more than ten digits.
pub open spec fn incr_outcome(
    index: nat,
    cred: Seq<char>,
    used: Seq<char>,
    max: Seq<char>,
    incr: nat,
) -> Option<Result<(nat, Seq<char>), Seq<char>>> {
    match parse_u64_spec(used) {
        None => Some(Err("Error parsing used tokens"@)),
        Some(n) => if n + incr > u64::MAX || decimal((n + incr) as nat).len() > 10 || index
            * line_len() > usize::MAX {
            None
        } else {
            Some(
                Ok(
                    (
                        index * line_len(),
                        cred + seq![','] + count_field((n + incr) as nat) + seq![','] + max,
                    ),
                ),
            )
        },
    }
}

/// The view of a planned write.
pub open spec fn write_view(r: Result<(u64, String), String>) -> Result<(nat, Seq<char>), Seq<char>> {
    match r {
        Ok((o, l)) => Ok((o as nat, l@)),
        Err(e) => Err(e@),
    }
}

/// Plans the write that adds `incr_value` used tokens to a quota line.
pub fn incr_tokens(line_data: (usize, String, String, String), incr_value: u64) -> (r: Option<
    Result<(u64, String), String>,
>)
    ensures
        r matches Some(w) ==> incr_outcome(
            line_data.0 as nat,
            line_data.1@,
            line_data.2@,
            line_data.3@,
            incr_value as nat,
        ) == Some(write_view(w)),
        r is None ==> incr_outcome(
            line_data.0 as nat,
            line_data.1@,
            line_data.2@,
            line_data.3@,
            incr_value as nat,
        ) is None,
{
    let (index, credentials, cur_tokens, max_tokens) = line_data;
    let cv = chars_of(cur_tokens.as_str());
    let nb_used = match parse_u64(cv.as_slice()) {
        Some(v) => v,
        None => {
            return Some(Err(owned("Error parsing used tokens")));
        },
    };
    let total = match nb_used.checked_add(incr_value) {
        Some(t) => t,
        None => {
            return None;
        },
    };
    let digits = decimal_string(total);
    let dv = chars_of(digits.as_str());
    if dv.len() > 10 {
        return None;
    }
    let offset = match index.checked_mul(72) {
        Some(o) => o,
        None => {
            return None;
        },
    };
    let mut line = credentials;
    push_str(&mut line, ",");
    push_repeat(&mut line, '0', 10 - dv.len());
    push_str(&mut line, digits.as_str());
    push_str(&mut line, ",");
    push_str(&mut line, max_tokens.as_str());
    proof {
        reveal_strlit(",");
        assert(line@ =~= line_data.1@ + seq![','] + count_field(total as nat) + seq![',']
            + line_data.3@);
    }
    Some(Ok((offset as u64, line)))
}

/// The tokens that one request uses.
pub open spec fn request_cost() -> nat {
    100
}

/// The outcome of a request of user `u`: the write that records its cost.
pub open spec fn request_outcome(u: Seq<char>, lines: Seq<Seq<char>>, read_failed: bool) -> Option<
    Result<(nat, Seq<char>), Seq<char>>,
> {
    match tokens_outcome(u, lines, read_failed) {
        None => None,
        Some(Err(e)) => Some(Err(e)),
        Some(Ok((k, c, used, max))) => incr_outcome(k, c, used, max, request_cost()),
    }
}

/// Checks the quota of a user and plans the write that records one request.
pub fn do_the_req(username: &String, lines: &Vec<String>, read_failed: bool) -> (r: Option<
    Result<(u64, String), String>,
>)
    ensures
        r matches Some(w) ==> request_outcome(username@, lines_view(lines@), read_failed) == Some(
            write_view(w),
        ),
        r is None ==> request_outcome(username@, lines_view(lines@), read_failed) is None,
{
    match verify_tokens(username, lines, read_failed) {
        None => None,
        Some(Err(e)) => Some(Err(e)),
        Some(Ok(q)) => incr_tokens(q, 100),
    }
}

// ---------------------------------------------------------------------------
// Laws of the account lines
// ---------------------------------------------------------------------------

/// `c` does not occur in `s`.
pub open spec fn lacks(s: Seq<char>, c: char) -> bool {
    forall|i: int| 0 <= i < s.len() ==> s[i] != c
}

/// An ASCII string of at most `width` bytes, without commas, padded to `width`.
proof fn lemma_pad_ascii(s: Seq<char>, width: nat)
    requires
        forall|i: int| 0 <= i < s.len() ==> '\0' <= s[i] && s[i] <= '\x7f' && s[i] != ',',
        byte_len(s) <= width,
    ensures
        pad_to(s, width).len() == width,
        lacks(pad_to(s, width), ','),
        forall|i: int| 0 <= i < pad_to(s, width).len() ==> '\0' <= pad_to(s, width)[i] && pad_to(s, width)[i] <= '\x7f',
{
    assert forall|i: int| 0 <= i < s.len() implies '\0' <= s[i] && s[i] <= '\u{7f}' by {
        assert(s[i] <= '\x7f');
    }
    assert(vstd::utf8::is_ascii_chars(s));
    vstd::utf8::is_ascii_chars_encode_utf8(s);
}

/// The credentials of an accepted sign-up are ASCII, without commas, and of
/// their allowed sizes.
proof fn lemma_accepted_ascii(u: Seq<char>, p: Seq<char>, e: Seq<char>)
    requires
        credentials_verdict(u, p, e) is Ok,
    ensures
        forall|i: int| 0 <= i < u.len() ==> '\0' <= u[i] && u[i] <= '\x7f' && u[i] != ',',
        forall|i: int| 0 <= i < p.len() ==> '\0' <= p[i] && p[i] <= '\x7f' && p[i] != ',',
        forall|i: int| 0 <= i < e.len() ==> '\0' <= e[i] && e[i] <= '\x7f' && e[i] != ',',
        1 <= byte_len(u) <= 12,
        8 <= byte_len(p) <= 15,
        byte_len(e) <= 20,
{
    assert forall|i: int| 0 <= i < u.len() implies '\0' <= u[i] && u[i] <= '\x7f' && u[i] != ',' by {
        assert(!refused_char(u[i]));
    }
    assert forall|i: int| 0 <= i < p.len() implies '\0' <= p[i] && p[i] <= '\x7f' && p[i] != ',' by {
        assert(!refused_char(p[i]));
    }
    assert(email_verdict(e) is Ok);
    assert forall|i: int| 0 <= i < e.len() implies '\0' <= e[i] && e[i] <= '\x7f' && e[i] != ',' by {
        assert(email_char(e[i]));
    }
}

/// The line of an accepted account has five fields: the name, password and
/// e-mail padded to 12, 15 and 20 bytes, then `0000000000` tokens used of
/// `0000000001`; it is 71 characters long.
pub proof fn lemma_record_fields(u: Seq<char>, p: Seq<char>, e: Seq<char>)
    requires
        credentials_verdict(u, p, e) is Ok,
    ensures
        line_fields(db_record(u, p, e)) == seq![
            pad_to(u, 12),
            pad_to(p, 15),
            pad_to(e, 20),
            "0000000000"@,
            "0000000001"@,
        ],
        db_record(u, p, e).len() == 71,
{
    lemma_accepted_ascii(u, p, e);
    lemma_pad_ascii(u, 12);
    lemma_pad_ascii(p, 15);
    lemma_pad_ascii(e, 20);
    reveal_strlit(",0000000000,0000000001");
    reveal_strlit("0000000000");
    reveal_strlit("0000000001");
    let c = seq![','];
    let z = "0000000000"@;
    let o = "0000000001"@;
    let a = pad_to(u, 12);
    let b = pad_to(p, 15);
    let d = pad_to(e, 20);
    assert(",0000000000,0000000001"@ =~= c + z + c + o);
    let rec = db_record(u, p, e);
    assert(rec =~= a + c + (b + c + (d + c + (z + c + o))));
    lemma_split_first(a, c, b + c + (d + c + (z + c + o)));
    lemma_split_first(b, c, d + c + (z + c + o));
    lemma_split_first(d, c, z + c + o);
    lemma_split_first(z, c, o);
    lemma_split_whole(o, c);
    assert(line_fields(rec) =~= seq![a, b, d, z, o]);
}

proof fn lemma_login_reaches(lines: Seq<Seq<char>>, u: Seq<char>, p: Seq<char>, i: nat, n: nat)
    requires
        i <= n < lines.len(),
        forall|k: int| 0 <= k <= n ==> #[trigger] line_fields(lines[k]).len() == 5,
        line_fields(lines[n as int])[0] == u && line_fields(lines[n as int])[1] == p,
    ensures
        login_stop(lines, u, p, i) matches Some(k) && k <= n && line_fields(lines[k as int]).len()
            == 5,
    decreases n - i,
{
    assert(line_fields(lines[i as int]).len() == 5);
    if i < n && !(line_fields(lines[i as int])[0] == u && line_fields(lines[i as int])[1] == p) {
        lemma_login_reaches(lines, u, p, i + 1, n);
    }
}

/// Signing in with the name and password of an account just added succeeds:
/// the line appended at sign-up is found when the database holds well-formed
/// lines before it, fewer than 256 of them.
pub proof fn lemma_signup_then_signin(
    u: Seq<char>,
    p: Seq<char>,
    e: Seq<char>,
    lines: Seq<Seq<char>>,
    read_failed: bool,
)
    requires
        credentials_verdict(u, p, e) is Ok,
        forall|k: int| 0 <= k < lines.len() ==> #[trigger] line_fields(lines[k]).len() == 5,
        lines.len() < 256,
    ensures
        login_outcome(lines.push(db_record(u, p, e)), pad_to(u, 12), pad_to(p, 15), read_failed)
            == Some(Ok::<(), Seq<char>>(())),
{
    let all = lines.push(db_record(u, p, e));
    let n = lines.len();
    lemma_record_fields(u, p, e);
    assert forall|k: int| 0 <= k <= n implies #[trigger] line_fields(all[k]).len() == 5 by {
        if k < n {
            assert(all[k] == lines[k]);
        }
    }
    lemma_login_reaches(all, pad_to(u, 12), pad_to(p, 15), 0, n);
}

proof fn lemma_zeros_value(z: Seq<char>)
    requires
        forall|i: int| 0 <= i < z.len() ==> z[i] == '0',
    ensures
        digits_value(z) == 0,
    decreases z.len(),
{
    if z.len() > 0 {
        lemma_zeros_value(z.drop_last());
    }
}

proof fn lemma_digits_push(d: Seq<char>, c: char)
    ensures
        digits_value(d.push(c)) == digits_value(d) * 10 + (c as nat - 48) as nat,
{
    assert(d.push(c).drop_last() =~= d);
}

/// `0000000000`, `0000000001` and `0000000100` read as 0, 1 and 100.
proof fn lemma_counts_read()
    ensures
        parse_u64_spec("0000000000"@) == Some(0u64),
        parse_u64_spec("0000000001"@) == Some(1u64),
        parse_u64_spec("0000000100"@) == Some(100u64),
{
    reveal_strlit("0000000000");
    reveal_strlit("0000000001");
    reveal_strlit("0000000100");
    let z7 = repeat_char('0', 7);
    let z9 = repeat_char('0', 9);
    lemma_zeros_value(z7);
    lemma_zeros_value(z9);
    lemma_zeros_value("0000000000"@);
    lemma_digits_push(z9, '1');
    assert("0000000001"@ =~= z9.push('1'));
    lemma_digits_push(z7, '1');
    lemma_digits_push(z7.push('1'), '0');
    lemma_digits_push(z7.push('1').push('0'), '0');
    assert("0000000100"@ =~= z7.push('1').push('0').push('0'));
    assert(unsigned_digits("0000000000"@) == "0000000000"@);
    assert(unsigned_digits("0000000001"@) == "0000000001"@);
    assert(unsigned_digits("0000000100"@) == "0000000100"@);
    assert forall|i: int| 0 <= i < 10 implies is_digit(#[trigger] "0000000000"@[i]) by {}
    assert forall|i: int| 0 <= i < 10 implies is_digit(#[trigger] "0000000001"@[i]) by {}
    assert forall|i: int| 0 <= i < 10 implies is_digit(#[trigger] "0000000100"@[i]) by {}
}

/// The credentials part of an account line: its first three fields joined by commas.
pub open spec fn record_credentials(u: Seq<char>, p: Seq<char>, e: Seq<char>) -> Seq<char> {
    pad_to(u, 12) + seq![','] + pad_to(p, 15) + seq![','] + pad_to(e, 20)
}

proof fn lemma_key_prefix(l: Seq<char>, u: Seq<char>)
    requires
        has_prefix(l, user_key(u)),
        byte_len(u) <= 12,
    ensures
        has_prefix(l, u),
{
    assert(l.subrange(0, u.len() as int) =~= user_key(u).subrange(0, u.len() as int));
    assert(user_key(u).subrange(0, u.len() as int) =~= u);
}

/// A new account's first request is allowed: its line is the first that
/// starts with the user's key, with no token used of the one allowed.
pub proof fn lemma_new_account_quota(
    u: Seq<char>,
    p: Seq<char>,
    e: Seq<char>,
    lines: Seq<Seq<char>>,
    read_failed: bool,
    later_read_failed: bool,
)
    requires
        add_user_outcome(u, p, e, lines, read_failed) is Ok,
    ensures
        tokens_outcome(u, lines.push(db_record(u, p, e)), later_read_failed) == Some(
            Ok::<_, Seq<char>>(
                (lines.len(), record_credentials(u, p, e), "0000000000"@, "0000000001"@),
            ),
        ),
{
    let all = lines.push(db_record(u, p, e));
    let n = lines.len();
    let key = user_key(u);
    lemma_record_fields(u, p, e);
    lemma_accepted_ascii(u, p, e);
    assert forall|j: int| 0 <= j < n && j < all.len() implies !has_prefix(#[trigger] all[j], key) by {
        assert(all[j] == lines[j]);
        if has_prefix(all[j], key) {
            lemma_key_prefix(all[j], u);
            assert(has_prefix(lines[j], u));
        }
    }
    crate::session::lemma_first_prefixed_skip(all, key, 0, n);
    let rec = db_record(u, p, e);
    assert(rec.subrange(0, key.len() as int) =~= key);
    assert(has_prefix(all[n as int], key));
    lemma_counts_read();
    let f = line_fields(rec);
    assert(f[0] + seq![','] + f[1] + seq![','] + f[2] == record_credentials(u, p, e));
}

/// The line that records one request on a new account.
pub open spec fn spent_record(cred: Seq<char>) -> Seq<char> {
    cred + seq![','] + "0000000100"@ + seq![','] + "0000000001"@
}

/// A new account can make exactly one request: the first one is recorded by
/// writing 100 used tokens of the one allowed, in a line of the same length
/// as the one it replaces, after which the line refuses further requests.
pub proof fn lemma_new_account_one_request(
    u: Seq<char>,
    p: Seq<char>,
    e: Seq<char>,
    lines: Seq<Seq<char>>,
    read_failed: bool,
    later_read_failed: bool,
)
    requires
        add_user_outcome(u, p, e, lines, read_failed) is Ok,
        lines.len() * line_len() <= usize::MAX,
    ensures
        request_outcome(u, lines.push(db_record(u, p, e)), later_read_failed) == Some(
            Ok::<_, Seq<char>>(
                (lines.len() * line_len(), spent_record(record_credentials(u, p, e))),
            ),
        ),
        quota_of_line(spent_record(record_credentials(u, p, e)), lines.len()) == Err::<
            (nat, Seq<char>, Seq<char>, Seq<char>),
            Seq<char>,
        >("Not enough tokens"@),
        spent_record(record_credentials(u, p, e)).len() == db_record(u, p, e).len(),
{
    lemma_new_account_quota(u, p, e, lines, read_failed, later_read_failed);
    lemma_record_fields(u, p, e);
    lemma_counts_read();
    lemma_accepted_ascii(u, p, e);
    lemma_pad_ascii(u, 12);
    lemma_pad_ascii(p, 15);
    lemma_pad_ascii(e, 20);
    reveal_strlit("0000000100");
    reveal_strlit("0000000001");
    reveal_with_fuel(decimal, 3);
    let d = decimal(100);
    assert(d =~= seq!['1', '0', '0']);
    assert(count_field(100) =~= repeat_char('0', 7) + d);
    assert(repeat_char('0', 7) + d + seq![','] + "0000000001"@ =~= "0000000100"@ + seq![',']
        + "0000000001"@);
    let cred = record_credentials(u, p, e);
    assert(cred + seq![','] + count_field(100) + seq![','] + "0000000001"@ =~= spent_record(
        cred,
    ));
    let c = seq![','];
    let a = pad_to(u, 12);
    let b = pad_to(p, 15);
    let m = pad_to(e, 20);
    let x = "0000000100"@;
    let o = "0000000001"@;
    assert(spent_record(cred) =~= a + c + (b + c + (m + c + (x + c + o))));
    lemma_split_first(a, c, b + c + (m + c + (x + c + o)));
    lemma_split_first(b, c, m + c + (x + c + o));
    lemma_split_first(m, c, x + c + o);
    lemma_split_first(x, c, o);
    lemma_split_whole(o, c);
    assert(line_fields(spent_record(cred)) =~= seq![a, b, m, x, o]);
}


// ---------------------------------------------------------------------------
// The database file and its in-place updates
// ---------------------------------------------------------------------------

/// A database line of the fixed layout: five fields of 12, 15, 20, 10 and 10 bytes.
pub open spec fn fixed_width_line(l: Seq<char>) -> bool {
    let f = line_fields(l);
    &&& f.len() == 5
    &&& byte_len(f[0]) == 12
    &&& byte_len(f[1]) == 15
    &&& byte_len(f[2]) == 20
    &&& byte_len(f[3]) == 10
    &&& byte_len(f[4]) == 10
}

/// Every line of the database has the fixed layout.
pub open spec fn fixed_width_db(lines: Seq<Seq<char>>) -> bool {
    forall|k: int| 0 <= k < lines.len() ==> #[trigger] fixed_width_line(lines[k])
}

/// The bytes of the database file: each line in UTF-8, followed by a newline.
pub open spec fn db_bytes(lines: Seq<Seq<char>>) -> Seq<u8>
    decreases lines.len(),
{
    if lines.len() == 0 {
        seq![]
    } else {
        db_bytes(lines.drop_last()) + vstd::utf8::encode_utf8(lines.last()) + seq![10u8]
    }
}

/// The file `file` after writing `data` at byte `offset`: the bytes there are
/// replaced, the file grows where the write passes its end, and a gap before
/// the offset reads as zeros.
pub open spec fn apply_write(file: Seq<u8>, offset: nat, data: Seq<u8>) -> Seq<u8> {
    if offset + data.len() <= file.len() {
        file.take(offset as int) + data + file.skip((offset + data.len()) as int)
    } else if offset <= file.len() {
        file.take(offset as int) + data
    } else {
        file + Seq::new((offset - file.len()) as nat, |i: int| 0u8) + data
    }
}

proof fn lemma_byte_len_joined(a: Seq<char>, b: Seq<char>)
    ensures
        byte_len(a + seq![','] + b) == byte_len(a) + 1 + byte_len(b),
{
    lemma_byte_len_concat(a, seq![',']);
    lemma_byte_len_concat(a + seq![','], b);
    lemma_ascii_byte_len(seq![',']);
}

/// A line of the fixed layout takes 71 bytes, 72 with its newline.
proof fn lemma_fixed_width_len(l: Seq<char>)
    requires
        fixed_width_line(l),
    ensures
        byte_len(l) == 71,
        vstd::utf8::encode_utf8(l).len() + 1 == line_len(),
{
    let c = ',';
    let f = line_fields(l);
    lemma_split_join(l, c);
    let f1 = f.drop_first();
    let f2 = f1.drop_first();
    let f3 = f2.drop_first();
    let f4 = f3.drop_first();
    assert(join_with(f4, c) == f[4]);
    assert(join_with(f3, c) == f[3] + seq![c] + join_with(f4, c));
    assert(join_with(f2, c) == f[2] + seq![c] + join_with(f3, c));
    assert(join_with(f1, c) == f[1] + seq![c] + join_with(f2, c));
    assert(join_with(f, c) == f[0] + seq![c] + join_with(f1, c));
    lemma_byte_len_joined(f[3], f[4]);
    lemma_byte_len_joined(f[2], join_with(f3, c));
    lemma_byte_len_joined(f[1], join_with(f2, c));
    lemma_byte_len_joined(f[0], join_with(f1, c));
}

proof fn lemma_db_bytes_concat(a: Seq<Seq<char>>, b: Seq<Seq<char>>)
    ensures
        db_bytes(a + b) == db_bytes(a) + db_bytes(b),
    decreases b.len(),
{
    if b.len() == 0 {
        assert(a + b =~= a);
        assert(db_bytes(a) + db_bytes(b) =~= db_bytes(a));
    } else {
        lemma_db_bytes_concat(a, b.drop_last());
        assert((a + b).drop_last() =~= a + b.drop_last());
        assert((a + b).last() == b.last());
        assert(db_bytes(a + b) =~= db_bytes(a) + db_bytes(b));
    }
}

proof fn lemma_db_bytes_len(lines: Seq<Seq<char>>)
    requires
        fixed_width_db(lines),
    ensures
        db_bytes(lines).len() == lines.len() * line_len(),
    decreases lines.len(),
{
    if lines.len() > 0 {
        let rest = lines.drop_last();
        assert forall|k: int| 0 <= k < rest.len() implies #[trigger] fixed_width_line(rest[k]) by {
            assert(rest[k] == lines[k]);
        }
        lemma_db_bytes_len(rest);
        assert(fixed_width_line(lines[lines.len() - 1]));
        lemma_fixed_width_len(lines.last());
    }
}

proof fn lemma_first_prefixed_found(lines: Seq<Seq<char>>, p: Seq<char>, i: nat)
    ensures
        first_prefixed(lines, p, i) matches Some(k) ==> i <= k < lines.len() && has_prefix(
            lines[k as int],
            p,
        ),
    decreases lines.len() - i,
{
    if i < lines.len() && !has_prefix(lines[i as int], p) {
        lemma_first_prefixed_found(lines, p, i + 1);
    }
}

/// Recording a request rewrites the user's line in place: in a database of
/// fixed-layout lines, the write lands at the start of the line found for the
/// user, replaces that line with one of the same layout that differs only in
/// its used-token field, and leaves every other byte of the file as it was.
pub proof fn lemma_request_rewrites_line(u: Seq<char>, lines: Seq<Seq<char>>, read_failed: bool)
    requires
        fixed_width_db(lines),
        request_outcome(u, lines, read_failed) matches Some(Ok(_)),
    ensures
        tokens_outcome(u, lines, read_failed) matches Some(Ok((k, cred, used, max)))
            && request_outcome(u, lines, read_failed) matches Some(Ok((offset, w)))
            && k < lines.len()
            && offset == k * line_len()
            && line_fields(w) == line_fields(lines[k as int]).update(
                3,
                count_field((parse_u64_spec(used)->0 + request_cost()) as nat),
            )
            && fixed_width_db(lines.update(k as int, w))
            && apply_write(db_bytes(lines), offset, vstd::utf8::encode_utf8(w)) == db_bytes(
                lines.update(k as int, w),
            ),
{
    let key = user_key(u);
    lemma_first_prefixed_found(lines, key, 0);
    let k = first_prefixed(lines, key, 0)->0;
    let l = lines[k as int];
    let f = line_fields(l);
    let n = (parse_u64_spec(f[3])->0 + request_cost()) as nat;
    let cf = count_field(n);
    let c = seq![','];
    let w = f[0] + c + f[1] + c + f[2] + c + cf + c + f[4];
    assert(fixed_width_line(l));
    // The new count field: ten ASCII digits.
    lemma_decimal_digits(n);
    let d = decimal(n);
    assert forall|i: int| 0 <= i < cf.len() implies '0' <= #[trigger] cf[i] && cf[i] <= '9' by {
        if i >= 10 - d.len() {
            assert(cf[i] == d[i - (10 - d.len())]);
        }
    }
    assert forall|i: int| 0 <= i < cf.len() implies '\0' <= #[trigger] cf[i] && cf[i] <= '\x7f' by {
        assert('0' <= cf[i] && cf[i] <= '9');
    }
    lemma_ascii_byte_len(cf);
    // The fields of the new line.
    lemma_split_join(l, ',');
    assert(forall|j: int| 0 <= j < f[0].len() ==> #[trigger] f[0][j] != ',');
    assert(forall|j: int| 0 <= j < f[1].len() ==> #[trigger] f[1][j] != ',');
    assert(forall|j: int| 0 <= j < f[2].len() ==> #[trigger] f[2][j] != ',');
    assert(forall|j: int| 0 <= j < f[4].len() ==> #[trigger] f[4][j] != ',');
    assert forall|j: int| 0 <= j < cf.len() implies #[trigger] cf[j] != ',' by {
        assert('0' <= cf[j] && cf[j] <= '9');
    }
    assert(w =~= f[0] + c + (f[1] + c + (f[2] + c + (cf + c + f[4]))));
    lemma_split_first(f[0], c, f[1] + c + (f[2] + c + (cf + c + f[4])));
    lemma_split_first(f[1], c, f[2] + c + (cf + c + f[4]));
    lemma_split_first(f[2], c, cf + c + f[4]);
    lemma_split_first(cf, c, f[4]);
    lemma_split_whole(f[4], c);
    assert(line_fields(w) =~= f.update(3, cf));
    assert(fixed_width_line(w));
    let updated = lines.update(k as int, w);
    assert forall|j: int| 0 <= j < updated.len() implies #[trigger] fixed_width_line(updated[j]) by {
        if j != k {
            assert(updated[j] == lines[j]);
        }
    }
    // The write against the file.
    let a = lines.take(k as int);
    let b = lines.skip(k + 1int);
    assert(lines =~= a + seq![l] + b);
    assert(updated =~= a + seq![w] + b);
    lemma_db_bytes_concat(a + seq![l], b);
    lemma_db_bytes_concat(a, seq![l]);
    lemma_db_bytes_concat(a + seq![w], b);
    lemma_db_bytes_concat(a, seq![w]);
    assert(seq![l].drop_last() =~= Seq::<Seq<char>>::empty());
    assert(seq![w].drop_last() =~= Seq::<Seq<char>>::empty());
    let el = vstd::utf8::encode_utf8(l);
    let ew = vstd::utf8::encode_utf8(w);
    assert(db_bytes(Seq::<Seq<char>>::empty()) =~= Seq::<u8>::empty());
    assert(seq![l].last() == l);
    assert(seq![w].last() == w);
    assert(db_bytes(seq![l]) =~= el + seq![10u8]);
    assert(db_bytes(seq![w]) =~= ew + seq![10u8]);
    assert forall|j: int| 0 <= j < a.len() implies #[trigger] fixed_width_line(a[j]) by {
        assert(a[j] == lines[j]);
    }
    lemma_db_bytes_len(a);
    lemma_fixed_width_len(l);
    lemma_fixed_width_len(w);
    let x = db_bytes(a);
    let y = db_bytes(b);
    let file = db_bytes(lines);
    assert(file =~= x + (el + seq![10u8]) + y);
    assert(x.len() == k * line_len());
    assert(file.take(x.len() as int) =~= x);
    assert(file.skip((x.len() + ew.len()) as int) =~= seq![10u8] + y);
    assert(apply_write(file, x.len(), ew) =~= x + (ew + seq![10u8]) + y);
}

/// A sign-up keeps the layout of the database: the line it appends has the
/// fixed layout, and the file grows by that line and a newline.
pub proof fn lemma_add_user_keeps_layout(
    u: Seq<char>,
    p: Seq<char>,
    e: Seq<char>,
    lines: Seq<Seq<char>>,
    read_failed: bool,
)
    requires
        fixed_width_db(lines),
    ensures
        add_user_outcome(u, p, e, lines, read_failed) matches Ok(rec) ==> fixed_width_db(
            lines.push(rec),
        ) && db_bytes(lines.push(rec)) == db_bytes(lines) + vstd::utf8::encode_utf8(rec) + seq![
            10u8,
        ],
{
    if add_user_outcome(u, p, e, lines, read_failed) is Ok {
        let rec = db_record(u, p, e);
        lemma_record_fixed_width(u, p, e);
        let all = lines.push(rec);
        assert forall|k: int| 0 <= k < all.len() implies #[trigger] fixed_width_line(all[k]) by {
            if k < lines.len() {
                assert(all[k] == lines[k]);
            }
        }
        assert(all.drop_last() =~= lines);
    }
}

/// The line of an accepted account has the fixed layout.
proof fn lemma_record_fixed_width(u: Seq<char>, p: Seq<char>, e: Seq<char>)
    requires
        credentials_verdict(u, p, e) is Ok,
    ensures
        fixed_width_line(db_record(u, p, e)),
{
    lemma_record_fields(u, p, e);
    lemma_accepted_ascii(u, p, e);
    lemma_pad_ascii(u, 12);
    lemma_pad_ascii(p, 15);
    lemma_pad_ascii(e, 20);
    lemma_ascii_byte_len(pad_to(u, 12));
    lemma_ascii_byte_len(pad_to(p, 15));
    lemma_ascii_byte_len(pad_to(e, 20));
    reveal_strlit("0000000000");
    reveal_strlit("0000000001");
    lemma_ascii_byte_len("0000000000"@);
    lemma_ascii_byte_len("0000000001"@);
}

/// The life of a new account in a database of fixed-layout lines: its first
/// request rewrites its line in place, as the line of the first request, and
/// once the file holds that line, a further request of the user is refused.
pub proof fn lemma_new_account_file(
    u: Seq<char>,
    p: Seq<char>,
    e: Seq<char>,
    lines: Seq<Seq<char>>,
    read_failed: bool,
    later_read_failed: bool,
)
    requires
        add_user_outcome(u, p, e, lines, read_failed) is Ok,
        fixed_width_db(lines),
        lines.len() * line_len() <= usize::MAX,
    ensures
        apply_write(
            db_bytes(lines.push(db_record(u, p, e))),
            lines.len() * line_len(),
            vstd::utf8::encode_utf8(spent_record(record_credentials(u, p, e))),
        ) == db_bytes(lines.push(spent_record(record_credentials(u, p, e)))),
        request_outcome(u, lines.push(spent_record(record_credentials(u, p, e))), later_read_failed)
            == Some(Err::<(nat, Seq<char>), Seq<char>>("Not enough tokens"@)),
{
    let rec = db_record(u, p, e);
    let spent = spent_record(record_credentials(u, p, e));
    let all = lines.push(rec);
    let n = lines.len();
    lemma_add_user_keeps_layout(u, p, e, lines, read_failed);
    lemma_new_account_quota(u, p, e, lines, read_failed, later_read_failed);
    lemma_new_account_one_request(u, p, e, lines, read_failed, later_read_failed);
    lemma_request_rewrites_line(u, all, later_read_failed);
    assert(all.update(n as int, spent) =~= lines.push(spent));
    // The user's key is found again on the rewritten line, which refuses the request.
    let after = lines.push(spent);
    let key = user_key(u);
    lemma_accepted_ascii(u, p, e);
    assert forall|j: int| 0 <= j < n && j < after.len() implies !has_prefix(#[trigger] after[j], key) by {
        assert(after[j] == lines[j]);
        if has_prefix(after[j], key) {
            lemma_key_prefix(after[j], u);
            assert(has_prefix(lines[j], u));
        }
    }
    crate::session::lemma_first_prefixed_skip(after, key, 0, n);
    let cred = record_credentials(u, p, e);
    assert(spent.subrange(0, key.len() as int) =~= key);
    assert(has_prefix(after[n as int], key));
}


proof fn lemma_first_prefixed_before(lines: Seq<Seq<char>>, p: Seq<char>, i: nat)
    ensures
        first_prefixed(lines, p, i) matches Some(k) ==> forall|j: int|
            i <= j < k ==> !has_prefix(#[trigger] lines[j], p),
    decreases lines.len() - i,
{
    if i < lines.len() && !has_prefix(lines[i as int], p) {
        lemma_first_prefixed_before(lines, p, i + 1);
    }
}

proof fn lemma_decimal_value(n: nat)
    ensures
        digits_value(decimal(n)) == n,
    decreases n,
{
    let c = digit_char(n % 10);
    assert(c as nat == 48 + n % 10);
    if n >= 10 {
        lemma_decimal_value(n / 10);
        lemma_digits_push(decimal(n / 10), c);
        assert(decimal(n) == decimal(n / 10).push(c));
        assert(n == (n / 10) * 10 + n % 10);
        assert(digits_value(decimal(n)) == digits_value(decimal(n / 10)) * 10 + n % 10);
    } else {
        assert(digits_value(Seq::<char>::empty()) == 0);
        assert(decimal(n) == seq![c]);
        assert(decimal(n).drop_last() =~= Seq::<char>::empty());
        assert(decimal(n).last() == c);
    }
}

proof fn lemma_zeros_then(z: Seq<char>, d: Seq<char>)
    requires
        forall|i: int| 0 <= i < z.len() ==> z[i] == '0',
    ensures
        digits_value(z + d) == digits_value(d),
    decreases d.len(),
{
    if d.len() == 0 {
        assert(z + d =~= z);
        lemma_zeros_value(z);
    } else {
        lemma_zeros_then(z, d.drop_last());
        assert((z + d).drop_last() =~= z + d.drop_last());
        assert((z + d).last() == d.last());
    }
}

/// A count written by the token update reads back as the same count.
proof fn lemma_count_field_reads(n: nat)
    requires
        n <= u64::MAX,
        decimal(n).len() <= 10,
    ensures
        parse_u64_spec(count_field(n)) == Some(n as u64),
        count_field(n).len() == 10,
{
    let d = decimal(n);
    let z = repeat_char('0', (10 - d.len()) as nat);
    let cf = count_field(n);
    lemma_decimal_digits(n);
    lemma_decimal_value(n);
    lemma_zeros_then(z, d);
    assert forall|i: int| 0 <= i < cf.len() implies is_digit(#[trigger] cf[i]) by {
        if i >= z.len() {
            assert(cf[i] == d[i - z.len()]);
        }
    }
    assert(is_digit(cf[0]));
    assert(unsigned_digits(cf) == cf);
}

/// One request may take a user past the quota, and the next is refused: in
/// a database of fixed-layout lines, when a request of `u` is allowed and the
/// allowed count is at most the used count plus the cost of a request, then
/// once its write has rewritten the user's line, the next request of `u` is
/// answered "Not enough tokens" and plans no write.
pub proof fn lemma_second_request_refused(
    u: Seq<char>,
    lines: Seq<Seq<char>>,
    read_failed: bool,
    later_read_failed: bool,
)
    requires
        fixed_width_db(lines),
        request_outcome(u, lines, read_failed) matches Some(Ok(_)),
        tokens_outcome(u, lines, read_failed) matches Some(Ok((_k, _c, used, max)))
            && parse_u64_spec(max)->0 <= parse_u64_spec(used)->0 + request_cost(),
    ensures
        tokens_outcome(u, lines, read_failed) matches Some(Ok((k, _c, _used, _max)))
            && request_outcome(u, lines, read_failed) matches Some(Ok((_offset, w)))
            && request_outcome(u, lines.update(k as int, w), later_read_failed) == Some(
                Err::<(nat, Seq<char>), Seq<char>>("Not enough tokens"@),
            ),
{
    lemma_request_rewrites_line(u, lines, read_failed);
    let key = user_key(u);
    lemma_first_prefixed_found(lines, key, 0);
    lemma_first_prefixed_before(lines, key, 0);
    let k = first_prefixed(lines, key, 0)->0;
    let l = lines[k as int];
    let f = line_fields(l);
    let n = (parse_u64_spec(f[3])->0 + request_cost()) as nat;
    let cf = count_field(n);
    let c = seq![','];
    let w = f[0] + c + f[1] + c + f[2] + c + cf + c + f[4];
    assert(request_outcome(u, lines, read_failed) == Some(
        Ok::<(nat, Seq<char>), Seq<char>>((k * line_len(), w)),
    ));
    let updated = lines.update(k as int, w);
    // The user's key still starts the rewritten line.
    assert(fixed_width_line(l));
    let pre = f[0] + c + f[1] + c + f[2] + c;
    lemma_byte_len_bounds(f[0]);
    lemma_byte_len_bounds(f[1]);
    lemma_byte_len_bounds(f[2]);
    lemma_byte_len_bounds(u);
    assert(key.len() <= 13);
    assert(pre.len() >= 15);
    lemma_split_join(l, ',');
    let f1 = f.drop_first();
    let f2 = f1.drop_first();
    let f3 = f2.drop_first();
    let f4 = f3.drop_first();
    assert(join_with(f4, ',') == f[4]);
    assert(join_with(f3, ',') == f[3] + c + join_with(f4, ','));
    assert(join_with(f2, ',') == f[2] + c + join_with(f3, ','));
    assert(join_with(f1, ',') == f[1] + c + join_with(f2, ','));
    assert(join_with(f, ',') == f[0] + c + join_with(f1, ','));
    assert(l =~= pre + (f[3] + c + f[4]));
    assert(w =~= pre + (cf + c + f[4]));
    assert(has_prefix(l, key));
    assert(l.subrange(0, key.len() as int) =~= pre.subrange(0, key.len() as int));
    assert(w.subrange(0, key.len() as int) =~= pre.subrange(0, key.len() as int));
    assert(has_prefix(w, key));
    assert forall|j: int| 0 <= j < k && j < updated.len() implies !has_prefix(#[trigger] updated[j], key) by {
        assert(updated[j] == lines[j]);
    }
    crate::session::lemma_first_prefixed_skip(updated, key, 0, k);
    assert(first_prefixed(updated, key, k) == Some(k));
    // The rewritten line's counts: the quota is spent.
    assert(line_fields(w) == f.update(3, cf));
    lemma_count_field_reads(n);
    assert(line_fields(w)[3] == cf);
    assert(line_fields(w)[4] == f[4]);
    assert(quota_of_line(w, k) == Err::<(nat, Seq<char>, Seq<char>, Seq<char>), Seq<char>>(
        "Not enough tokens"@,
    ));
}


/// Signing in finds the account's line wherever it stands: when the lines up
/// to and including line `k` (`k` below 256) each have five comma-separated
/// fields and line `k` holds the name and password as its first two fields,
/// the sign-in succeeds.
pub proof fn lemma_signin_finds_line(
    lines: Seq<Seq<char>>,
    u: Seq<char>,
    p: Seq<char>,
    k: nat,
    read_failed: bool,
)
    requires
        k < lines.len(),
        k < 256,
        forall|j: int| 0 <= j <= k ==> #[trigger] split_seq(lines[j], seq![',']).len() == 5,
        split_seq(lines[k as int], seq![','])[0] == u,
        split_seq(lines[k as int], seq![','])[1] == p,
    ensures
        login_outcome(lines, u, p, read_failed) == Some(Ok::<(), Seq<char>>(())),
{
    assert forall|j: int| 0 <= j <= k implies #[trigger] line_fields(lines[j]).len() == 5 by {
        assert(split_seq(lines[j], seq![',']).len() == 5);
    }
    lemma_login_reaches(lines, u, p, 0, k);
}

/// A name is taken exactly when a line of the database starts with it: for
/// credentials that pass the rules, the sign-up is refused as taken when some
/// line starts with the name; when none does and reading did not fail, it
/// gives the new account's line: the name, password and e-mail each followed
/// by spaces up to 12, 15 and 20 bytes and a comma, then no token used of one.
pub proof fn lemma_name_taken_iff_prefix(
    u: Seq<char>,
    p: Seq<char>,
    e: Seq<char>,
    lines: Seq<Seq<char>>,
    read_failed: bool,
)
    requires
        credentials_verdict(u, p, e) is Ok,
    ensures
        (exists|k: int|
            0 <= k < lines.len() && u.len() <= lines[k].len() && #[trigger] lines[k].subrange(
                0,
                u.len() as int,
            ) == u) ==> add_user_outcome(u, p, e, lines, read_failed) == Err::<Seq<char>, Seq<char>>(
            "Username already taken"@,
        ),
        (forall|k: int|
            0 <= k < lines.len() ==> !(u.len() <= lines[k].len() && #[trigger] lines[k].subrange(
                0,
                u.len() as int,
            ) == u)) && !read_failed ==> add_user_outcome(u, p, e, lines, read_failed) == Ok::<
            Seq<char>,
            Seq<char>,
        >(
            u + Seq::new((12 - byte_len(u)) as nat, |i: int| ' ') + seq![','] + p + Seq::new(
                (15 - byte_len(p)) as nat,
                |i: int| ' ',
            ) + seq![','] + e + Seq::new((20 - byte_len(e)) as nat, |i: int| ' ')
                + ",0000000000,0000000001"@,
        ),
{
    if exists|k: int|
        0 <= k < lines.len() && u.len() <= lines[k].len() && #[trigger] lines[k].subrange(
            0,
            u.len() as int,
        ) == u {
        let k = choose|k: int|
            0 <= k < lines.len() && u.len() <= lines[k].len() && #[trigger] lines[k].subrange(
                0,
                u.len() as int,
            ) == u;
        assert(has_prefix(lines[k], u));
    }
    if forall|k: int|
        0 <= k < lines.len() ==> !(u.len() <= lines[k].len() && #[trigger] lines[k].subrange(
            0,
            u.len() as int,
        ) == u) {
        assert forall|k: int| 0 <= k < lines.len() implies !has_prefix(#[trigger] lines[k], u) by {
            assert(!(u.len() <= lines[k].len() && lines[k].subrange(0, u.len() as int) == u));
        }
        assert(db_record(u, p, e) =~= u + Seq::new((12 - byte_len(u)) as nat, |i: int| ' ') + seq![
            ',',
        ] + p + Seq::new((15 - byte_len(p)) as nat, |i: int| ' ') + seq![','] + e + Seq::new(
            (20 - byte_len(e)) as nat,
            |i: int| ' ',
        ) + ",0000000000,0000000001"@);
    }
}

proof fn lemma_login_none(lines: Seq<Seq<char>>, u: Seq<char>, p: Seq<char>, i: nat)
    requires
        forall|j: int|
            i <= j < lines.len() ==> #[trigger] line_fields(lines[j]).len() == 5 && !(line_fields(
                lines[j],
            )[0] == u && line_fields(lines[j])[1] == p),
    ensures
        login_stop(lines, u, p, i) is None,
    decreases lines.len() - i,
{
    if i < lines.len() {
        assert(line_fields(lines[i as int]).len() == 5);
        lemma_login_none(lines, u, p, i + 1);
    }
}

/// Signing in is refused when no line holds the name and password: with
/// fewer than 256 lines, each of five comma-separated fields, none of which
/// has the name and password as its first two fields, the sign-in answers
/// "Credentials not valid" (or "Error" when reading stopped on an error).
pub proof fn lemma_signin_refused(
    lines: Seq<Seq<char>>,
    u: Seq<char>,
    p: Seq<char>,
    read_failed: bool,
)
    requires
        lines.len() < 256,
        forall|j: int| 0 <= j < lines.len() ==> #[trigger] split_seq(lines[j], seq![',']).len() == 5,
        forall|j: int|
            0 <= j < lines.len() ==> !(#[trigger] split_seq(lines[j], seq![','])[0] == u && split_seq(
                lines[j],
                seq![','],
            )[1] == p),
    ensures
        login_outcome(lines, u, p, read_failed) == Some(
            Err::<(), Seq<char>>(
                if read_failed {
                    "Error"@
                } else {
                    "Credentials not valid"@
                },
            ),
        ),
{
    assert forall|j: int| 0 <= j < lines.len() implies #[trigger] line_fields(lines[j]).len() == 5
        && !(line_fields(lines[j])[0] == u && line_fields(lines[j])[1] == p) by {
        assert(split_seq(lines[j], seq![',']).len() == 5);
    }
    lemma_login_none(lines, u, p, 0);
}

} // verus!
