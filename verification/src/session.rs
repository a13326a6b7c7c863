//! Session cookies: reading the session cookie of a request, and the set of
//! open sessions.
use vstd::prelude::*;
use crate::codec::{decode_token, hex_of, lemma_hex_chars, lemma_token_hex_roundtrip, to_hex, token_of};
use crate::text::{
    byte_len, byte_len_capped, chars_of, crlf, has_char_prefix, has_prefix, lemma_byte_len_empty,
    lemma_split_first, lemma_split_whole, owned, split_seq, split_string,
};

verus! {

// ---------------------------------------------------------------------------
// The session cookie of a request
// ---------------------------------------------------------------------------

/// The index of the first line at or after `i` that starts with `p`.
pub open spec fn first_prefixed(lines: Seq<Seq<char>>, p: Seq<char>, i: nat) -> Option<nat>
    decreases lines.len() - i,
{
    if i >= lines.len() {
        None
    } else if has_prefix(lines[i as int], p) {
        Some(i)
    } else {
        first_prefixed(lines, p, i + 1)
    }
}

pub proof fn lemma_first_prefixed_skip(lines: Seq<Seq<char>>, p: Seq<char>, i: nat, k: nat)
    requires
        i <= k,
        forall|j: int| i <= j < k && j < lines.len() ==> !has_prefix(#[trigger] lines[j], p),
    ensures
        first_prefixed(lines, p, i) == first_prefixed(lines, p, k),
    decreases k - i,
{
    if i < k {
        lemma_first_prefixed_skip(lines, p, i + 1, k);
    }
}

/// The session token and user name of a `Cookie:` line, which must read
/// `Cookie: <name>=<token>[;...]=<user>`: exactly two `=`, a non-empty user
/// name, and a token of 64 bytes (the part before the first `;`).
pub open spec fn cookie_fields(line: Seq<char>) -> Result<(Seq<char>, Seq<char>), Seq<char>> {
    let parts = split_seq(line, seq!['=']);
    if parts.len() != 3 {
        Err("Error in cookie format"@)
    } else if byte_len(parts[2]) == 0 {
        Err("Cookie format is not valid"@)
    } else if byte_len(split_seq(parts[1], seq![';'])[0]) != 64 {
        Err("Cookie format is not valid"@)
    } else {
        Ok((split_seq(parts[1], seq![';'])[0], parts[2]))
    }
}

/// The session token and user name that a request carries: a request of at
/// most 40 lines, read from its first line that starts with `Cookie: `.
pub open spec fn session_of(req: Seq<char>) -> Result<(Seq<char>, Seq<char>), Seq<char>> {
    let lines = split_seq(req, crlf());
    if lines.len() > 40 {
        Err("Request too long"@)
    } else {
        match first_prefixed(lines, "Cookie: "@, 0) {
            None => Err("Cookie field was not found"@),
            Some(k) => cookie_fields(lines[k as int]),
        }
    }
}

/// The view of a `(token, user)` result.
pub open spec fn pair_result_view(r: Result<(String, String), String>) -> Result<
    (Seq<char>, Seq<char>),
    Seq<char>,
> {
    match r {
        Ok((a, b)) => Ok((a@, b@)),
        Err(m) => Err(m@),
    }
}

fn cookie_line_fields(line: &String) -> (r: Result<(String, String), String>)
    ensures
        pair_result_view(r) == cookie_fields(line@),
{
    let lv = chars_of(line.as_str());
    let eq = chars_of("=");
    let semi = chars_of(";");
    proof {
        reveal_strlit("=");
        reveal_strlit(";");
        assert(eq@ =~= seq!['=']);
        assert(semi@ =~= seq![';']);
    }
    let parts = split_string(lv.as_slice(), eq.as_slice());
    if parts.len() != 3 {
        return Err(owned("Error in cookie format"));
    }
    let user = chars_of(parts[2].as_str());
    if byte_len_capped(user.as_slice(), 0) == 0 {
        return Err(owned("Cookie format is not valid"));
    }
    let tv = chars_of(parts[1].as_str());
    let pieces = split_string(tv.as_slice(), semi.as_slice());
    let token = chars_of(pieces[0].as_str());
    if byte_len_capped(token.as_slice(), 64) != 64 {
        return Err(owned("Cookie format is not valid"));
    }
    Ok((pieces[0].clone(), parts[2].clone()))
}

/// Reads the session token and user name from the `Cookie:` line of a request.
pub fn retrieve_session(req: &String) -> (r: Result<(String, String), String>)
    ensures
        pair_result_view(r) == session_of(req@),
{
    let rv = chars_of(req.as_str());
    let sep = chars_of("\r\n");
    let prefix = chars_of("Cookie: ");
    proof {
        reveal_strlit("\r\n");
        assert(sep@ =~= crlf());
    }
    let lines = split_string(rv.as_slice(), sep.as_slice());
    if lines.len() > 40 {
        return Err(owned("Request too long"));
    }
    let ghost lv = split_seq(req@, crlf());
    let mut k: usize = 0;
    while k < lines.len()
        invariant
            lines@.len() == lv.len(),
            lv == split_seq(req@, crlf()),
            lv.len() <= 40,
            prefix@ == "Cookie: "@,
            forall|j: int| 0 <= j < lines@.len() ==> #[trigger] lines@[j]@ == lv[j],
            k <= lines@.len(),
            first_prefixed(lv, "Cookie: "@, 0) == first_prefixed(lv, "Cookie: "@, k as nat),
        decreases lines@.len() - k,
    {
        let line = chars_of(lines[k].as_str());
        if has_char_prefix(line.as_slice(), prefix.as_slice()) {
            return cookie_line_fields(&lines[k]);
        }
        proof {
            lemma_first_prefixed_skip(lv, "Cookie: "@, k as nat, (k + 1) as nat);
        }
        k = k + 1;
    }
    Err(owned("Cookie field was not found"))
}

// ---------------------------------------------------------------------------
// The set of open sessions
// ---------------------------------------------------------------------------

/// Whether two session tokens are the same.
pub fn same_token(a: &[u8; 32], b: &[u8; 32]) -> (r: bool)
    ensures
        r == (a@ == b@),
{
    let mut i: usize = 0;
    while i < 32
        invariant
            i <= 32,
            a@.len() == 32,
            b@.len() == 32,
            forall|j: int| 0 <= j < i ==> a@[j] == b@[j],
        decreases 32 - i,
    {
        if a[i] != b[i] {
            return false;
        }
        i = i + 1;
    }
    assert(a@ =~= b@);
    true
}

/// The open sessions, each known by its 32-byte token. The tokens are kept in
/// a `Vec` that holds each at most once, and found by a linear search: vstd
/// specifies `HashSet` only for keys whose hashing it models, which does not
/// include `[u8; 32]`, so a hash set of tokens could not be reasoned about.
pub struct SessionStore {
    tokens: Vec<[u8; 32]>,
}

impl View for SessionStore {
    type V = Set<Seq<u8>>;

    closed spec fn view(&self) -> Set<Seq<u8>> {
        Set::new(|t: Seq<u8>| exists|i: int| 0 <= i < self.tokens@.len() && #[trigger] self.tokens@[i]@ == t)
    }
}

impl SessionStore {
    /// No token is held twice.
    #[verifier::type_invariant]
    closed spec fn distinct(self) -> bool {
        forall|i: int, j: int|
            0 <= i < j < self.tokens@.len() ==> #[trigger] self.tokens@[i]@ != #[trigger] self.tokens@[j]@
    }

    /// Every token of the store has 32 bytes.
    pub proof fn lemma_tokens_len(&self, t: Seq<u8>)
        ensures
            self@.contains(t) ==> t.len() == 32,
    {
    }

    /// An empty store.
    pub fn new() -> (s: Self)
        ensures
            s@ == Set::<Seq<u8>>::empty(),
    {
        let s = SessionStore { tokens: Vec::new() };
        assert(s@ =~= Set::<Seq<u8>>::empty());
        s
    }

    fn position(&self, t: &[u8; 32]) -> (r: Option<usize>)
        ensures
            r matches Some(i) ==> i < self.tokens@.len() && self.tokens@[i as int]@ == t@,
            r is None ==> forall|i: int| 0 <= i < self.tokens@.len() ==> self.tokens@[i]@ != t@,
    {
        let mut i: usize = 0;
        while i < self.tokens.len()
            invariant
                i <= self.tokens@.len(),
                forall|j: int| 0 <= j < i ==> self.tokens@[j]@ != t@,
            decreases self.tokens@.len() - i,
        {
            if same_token(&self.tokens[i], t) {
                return Some(i);
            }
            i = i + 1;
        }
        None
    }

    /// Whether the session `t` is open.
    pub fn contains(&self, t: &[u8; 32]) -> (r: bool)
        ensures
            r == self@.contains(t@),
    {
        match self.position(t) {
            Some(i) => {
                assert(self.tokens@[i as int]@ == t@);
                true
            },
            None => false,
        }
    }

    /// Opens the session `t`; `true` when it was not open before.
    pub fn insert(&mut self, t: [u8; 32]) -> (r: bool)
        ensures
            final(self)@ == old(self)@.insert(t@),
            r == !old(self)@.contains(t@),
    {
        proof {
            use_type_invariant(&*self);
        }
        match self.position(&t) {
            Some(i) => {
                assert(self.tokens@[i as int]@ == t@);
                assert(self@.insert(t@) =~= self@);
                false
            },
            None => {
                let ghost before = self.tokens@;
                let ghost old_view = self@;
                let mut tokens: Vec<[u8; 32]> = Vec::new();
                std::mem::swap(&mut tokens, &mut self.tokens);
                tokens.push(t);
                proof {
                    assert forall|a: int, b: int|
                        0 <= a < b < tokens@.len() implies #[trigger] tokens@[a]@ != #[trigger] tokens@[b]@ by {
                        if b == before.len() {
                            assert(tokens@[a]@ == before[a]@);
                        } else {
                            assert(tokens@[a] == before[a] && tokens@[b] == before[b]);
                        }
                    }
                }
                self.tokens = tokens;
                assert forall|x: Seq<u8>| self@.contains(x) <==> old_view.insert(t@).contains(x) by {
                    if old_view.contains(x) && x != t@ {
                        let i = choose|i: int| 0 <= i < before.len() && #[trigger] before[i]@ == x;
                        assert(self.tokens@[i]@ == x);
                    }
                    if self@.contains(x) {
                        let i = choose|i: int| 0 <= i < self.tokens@.len() && #[trigger] self.tokens@[i]@ == x;
                        if i < before.len() {
                            assert(before[i]@ == x);
                        }
                    }
                    if x == t@ {
                        assert(self.tokens@[before.len() as int]@ == x);
                    }
                }
                assert(self@ =~= old_view.insert(t@));
                true
            },
        }
    }

    /// Closes the session `t`; `true` when it was open.
    pub fn remove(&mut self, t: &[u8; 32]) -> (r: bool)
        ensures
            final(self)@ == old(self)@.remove(t@),
            r == old(self)@.contains(t@),
    {
        proof {
            use_type_invariant(&*self);
        }
        match self.position(t) {
            Some(i) => {
                let ghost before = self.tokens@;
                let ghost old_view = self@;
                assert(before[i as int]@ == t@);
                let mut tokens: Vec<[u8; 32]> = Vec::new();
                std::mem::swap(&mut tokens, &mut self.tokens);
                tokens.remove(i);
                proof {
                    assert forall|a: int, b: int|
                        0 <= a < b < tokens@.len() implies #[trigger] tokens@[a]@ != #[trigger] tokens@[b]@ by {
                        let a0 = if a < i { a } else { a + 1 };
                        let b0 = if b < i { b } else { b + 1 };
                        assert(tokens@[a] == before[a0] && tokens@[b] == before[b0]);
                    }
                }
                self.tokens = tokens;
                assert forall|x: Seq<u8>| self@.contains(x) <==> old_view.remove(t@).contains(x) by {
                    if old_view.contains(x) && x != t@ {
                        let j = choose|j: int| 0 <= j < before.len() && #[trigger] before[j]@ == x;
                        if j < i {
                            assert(self.tokens@[j]@ == x);
                        } else {
                            assert(j != i);
                            assert(self.tokens@[j - 1]@ == x);
                        }
                    }
                    if self@.contains(x) {
                        let j = choose|j: int| 0 <= j < self.tokens@.len() && #[trigger] self.tokens@[j]@ == x;
                        if j < i {
                            assert(before[j]@ == x);
                            assert(j != i);
                        } else {
                            assert(before[j + 1]@ == x);
                        }
                    }
                }
                assert(self@ =~= old_view.remove(t@));
                true
            },
            None => {
                assert(self@.remove(t@) =~= self@);
                false
            },
        }
    }

    /// The open sessions' tokens, each once.
    pub fn tokens(&self) -> (v: Vec<[u8; 32]>)
        ensures
            forall|t: Seq<u8>| self@.contains(t) <==> exists|i: int| 0 <= i < v@.len() && #[trigger] v@[i]@ == t,
            forall|i: int, j: int| 0 <= i < j < v@.len() ==> #[trigger] v@[i]@ != #[trigger] v@[j]@,
    {
        proof {
            use_type_invariant(self);
        }
        let mut v: Vec<[u8; 32]> = Vec::new();
        let mut i: usize = 0;
        while i < self.tokens.len()
            invariant
                i <= self.tokens@.len(),
                v@ == self.tokens@.take(i as int),
            decreases self.tokens@.len() - i,
        {
            v.push(self.tokens[i]);
            i = i + 1;
            assert(v@ =~= self.tokens@.take(i as int));
        }
        assert(v@ =~= self.tokens@);
        v
    }
}

// ---------------------------------------------------------------------------
// Laws of the session cookie
// ---------------------------------------------------------------------------

/// The cookie line a browser sends back for the cookies `session=<hex>` and
/// `username=<user>` set at sign-in.
pub open spec fn cookie_line(t: Seq<u8>, user: Seq<char>) -> Seq<char> {
    "Cookie: session="@ + hex_of(t) + "; username="@ + user
}

/// A request made of a first line and the cookie line.
pub open spec fn cookie_request(first: Seq<char>, t: Seq<u8>, user: Seq<char>) -> Seq<char> {
    first + crlf() + cookie_line(t, user)
}

/// The cookies set at sign-in are read back from a later request: the
/// token's hexadecimal notation and the user name, when the user name is
/// not empty and holds no `=` and no carriage return.
pub proof fn lemma_session_cookie_read_back(first: Seq<char>, t: Seq<u8>, user: Seq<char>)
    requires
        t.len() == 32,
        user.len() > 0,
        forall|i: int| 0 <= i < user.len() ==> user[i] != '=' && user[i] != '\r',
        forall|i: int| 0 <= i < first.len() ==> first[i] != '\r',
        !has_prefix(first, "Cookie: "@),
    ensures
        session_of(cookie_request(first, t, user)) == Ok::<_, Seq<char>>((hex_of(t), user)),
{
    reveal_strlit("Cookie: session=");
    reveal_strlit("; username=");
    reveal_strlit("Cookie: ");
    let h = hex_of(t);
    lemma_hex_chars(t);
    let line = cookie_line(t, user);
    let req = cookie_request(first, t, user);
    // The request has two lines.
    assert forall|i: int| 0 <= i < line.len() implies line[i] != crlf()[0] by {
        if i >= 16 && i < 16 + 64 {
            assert(line[i] == h[i - 16]);
        } else if i >= 16 + 64 + 11 {
            assert(line[i] == user[i - 91]);
        }
    }
    lemma_split_first(first, crlf(), line);
    lemma_split_whole(line, crlf());
    let lines = split_seq(req, crlf());
    assert(lines =~= seq![first, line]);
    // The second line is the cookie line.
    assert(line.subrange(0, 8) =~= "Cookie: "@);
    assert(lines[0] == first && lines[1] == line);
    assert(has_prefix(lines[1], "Cookie: "@));
    assert(first_prefixed(lines, "Cookie: "@, 1) == Some(1nat));
    assert(first_prefixed(lines, "Cookie: "@, 0) == Some(1nat));
    // Its parts around `=`.
    let a = "Cookie: session"@;
    let b = h + "; username"@;
    reveal_strlit("Cookie: session");
    reveal_strlit("; username");
    assert(line =~= a + seq!['='] + (b + seq!['='] + user));
    assert forall|i: int| 0 <= i < b.len() implies b[i] != '=' by {
        if i < 64 {
            assert(b[i] == h[i]);
        }
    }
    lemma_split_first(a, seq!['='], b + seq!['='] + user);
    lemma_split_first(b, seq!['='], user);
    lemma_split_whole(user, seq!['=']);
    let parts = split_seq(line, seq!['=']);
    assert(parts =~= seq![a, b, user]);
    lemma_byte_len_empty(user);
    // The token is what precedes the `;`.
    assert forall|i: int| 0 <= i < h.len() implies h[i] != ';' by {}
    assert(b =~= h + seq![';'] + " username"@) by {
        reveal_strlit(" username");
    }
    lemma_split_first(h, seq![';'], " username"@);
    assert(split_seq(b, seq![';'])[0] == h);
    assert forall|i: int| 0 <= i < h.len() implies '\0' <= h[i] && h[i] <= '\u{7f}' by {}
    assert(vstd::utf8::is_ascii_chars(h));
    vstd::utf8::is_ascii_chars_encode_utf8(h);
}

// ---------------------------------------------------------------------------
// Saving and loading the open sessions
// ---------------------------------------------------------------------------

/// The sessions written in the lines of a session file, one token per line
/// in its first 64 characters; `None` when a line does not hold a token.
pub open spec fn loaded_sessions(lines: Seq<Seq<char>>) -> Option<Set<Seq<u8>>> {
    if forall|k: int| 0 <= k < lines.len() ==> #[trigger] token_of(lines[k]) is Some {
        Some(Set::new(|t: Seq<u8>| exists|k: int| 0 <= k < lines.len() && #[trigger] token_of(lines[k]) == Some(t)))
    } else {
        None
    }
}

/// Reads the open sessions from the lines of a session file.
pub fn load_sessions(lines: &Vec<String>) -> (r: Option<SessionStore>)
    ensures
        r matches Some(s) ==> loaded_sessions(Seq::new(lines@.len(), |i: int| lines@[i]@)) == Some(s@),
        r is None ==> loaded_sessions(Seq::new(lines@.len(), |i: int| lines@[i]@)) is None,
{
    let ghost lv = Seq::new(lines@.len(), |i: int| lines@[i]@);
    let mut store = SessionStore::new();
    let mut k: usize = 0;
    while k < lines.len()
        invariant
            lv == Seq::new(lines@.len(), |i: int| lines@[i]@),
            k <= lines@.len(),
            forall|j: int| 0 <= j < k ==> #[trigger] token_of(lv[j]) is Some,
            store@ == Set::new(|t: Seq<u8>| exists|j: int| 0 <= j < k && #[trigger] token_of(lv[j]) == Some(t)),
        decreases lines@.len() - k,
    {
        let ghost before = store@;
        match decode_token(lines[k].as_str()) {
            None => {
                assert(token_of(lv[k as int]) is None);
                return None;
            },
            Some(t) => {
                store.insert(t);
                proof {
                    assert(token_of(lv[k as int]) == Some(t@));
                    assert forall|x: Seq<u8>| store@.contains(x) <==> (exists|j: int|
                        0 <= j < k + 1 && #[trigger] token_of(lv[j]) == Some(x)) by {
                        if store@.contains(x) && x != t@ {
                            let j = choose|j: int| 0 <= j < k && #[trigger] token_of(lv[j]) == Some(x);
                        }
                        if exists|j: int| 0 <= j < k + 1 && #[trigger] token_of(lv[j]) == Some(x) {
                            let j = choose|j: int| 0 <= j < k + 1 && #[trigger] token_of(lv[j]) == Some(x);
                            if j < k {
                                assert(before.contains(x));
                            }
                        }
                    }
                    assert(store@ =~= Set::new(|x: Seq<u8>| exists|j: int|
                        0 <= j < k + 1 && #[trigger] token_of(lv[j]) == Some(x)));
                }
            },
        }
        k = k + 1;
    }
    proof {
        assert(store@ =~= Set::new(|t: Seq<u8>| exists|j: int| 0 <= j < lv.len() && #[trigger] token_of(lv[j]) == Some(t)));
    }
    Some(store)
}

/// The lines `lines` record exactly the sessions `sessions`: each line is the
/// notation of an open session's token, and each open session has a line.
pub open spec fn records_sessions(lines: Seq<Seq<char>>, sessions: Set<Seq<u8>>) -> bool {
    &&& forall|k: int|
        0 <= k < lines.len() ==> (#[trigger] token_of(lines[k]) matches Some(t) && sessions.contains(t)
            && lines[k] == hex_of(t))
    &&& forall|t: Seq<u8>|
        #[trigger] sessions.contains(t) ==> exists|k: int| #![trigger lines[k]] 0 <= k < lines.len() && lines[k] == hex_of(t)
}

/// The lines of the session file that records the open sessions: each
/// token in hexadecimal, one per line, each session once.
pub fn saved_lines(sessions: &SessionStore) -> (lines: Vec<String>)
    ensures
        records_sessions(Seq::new(lines@.len(), |i: int| lines@[i]@), sessions@),
        forall|i: int, j: int| 0 <= i < j < lines@.len() ==> #[trigger] lines@[i]@ != #[trigger] lines@[j]@,
{
    let tokens = sessions.tokens();
    let mut lines: Vec<String> = Vec::new();
    let mut k: usize = 0;
    while k < tokens.len()
        invariant
            k <= tokens@.len(),
            lines@.len() == k,
            forall|j: int| 0 <= j < k ==> #[trigger] lines@[j]@ == hex_of(tokens@[j]@),
        decreases tokens@.len() - k,
    {
        lines.push(to_hex(&tokens[k]));
        k = k + 1;
    }
    let ghost lv = Seq::new(lines@.len(), |i: int| lines@[i]@);
    assert forall|k: int| 0 <= k < lv.len() implies (#[trigger] token_of(lv[k]) matches Some(t)
        && sessions@.contains(t) && lv[k] == hex_of(t)) by {
        let t = tokens@[k]@;
        assert(sessions@.contains(t));
        assert(t.len() == 32);
        assert(lv[k] == hex_of(t));
        lemma_token_hex_roundtrip(t);
    }
    assert forall|t: Seq<u8>| #[trigger] sessions@.contains(t) implies exists|k: int| #![trigger lv[k]] 0 <= k < lv.len() && lv[k] == hex_of(t) by {
        let i = choose|i: int| 0 <= i < tokens@.len() && #[trigger] tokens@[i]@ == t;
        assert(lv[i] == hex_of(t));
    }
    assert(records_sessions(lv, sessions@));
    assert forall|i: int, j: int| 0 <= i < j < lines@.len() implies #[trigger] lines@[i]@ != #[trigger] lines@[j]@ by {
        let a = tokens@[i]@;
        let b = tokens@[j]@;
        assert(a != b);
        assert(a.len() == 32 && b.len() == 32);
        lemma_token_hex_roundtrip(a);
        lemma_token_hex_roundtrip(b);
        assert(lines@[i]@ == hex_of(a));
        assert(lines@[j]@ == hex_of(b));
    }
    lines
}

/// The session file written at shutdown is read back at start-up with the
/// same open sessions.
pub proof fn lemma_sessions_persist(lines: Seq<Seq<char>>, sessions: Set<Seq<u8>>)
    requires
        records_sessions(lines, sessions),
    ensures
        loaded_sessions(lines) == Some(sessions),
{
    assert forall|k: int| 0 <= k < lines.len() implies #[trigger] token_of(lines[k]) is Some && sessions.contains(token_of(lines[k])->0) by {
    }
    let loaded = Set::new(|t: Seq<u8>| exists|k: int| 0 <= k < lines.len() && #[trigger] token_of(lines[k]) == Some(t));
    assert forall|t: Seq<u8>| loaded.contains(t) <==> sessions.contains(t) by {
        if loaded.contains(t) {
            let k = choose|k: int| 0 <= k < lines.len() && #[trigger] token_of(lines[k]) == Some(t);
            assert(sessions.contains(token_of(lines[k])->0));
        }
        if sessions.contains(t) {
            let k = choose|k: int| #![trigger lines[k]] 0 <= k < lines.len() && lines[k] == hex_of(t);
            let t2 = token_of(lines[k])->0;
            assert(token_of(lines[k]) == Some(t2));
            assert(sessions.contains(t2) && lines[k] == hex_of(t2));
            assert(t2.len() == 32);
            assert(hex_of(t) == hex_of(t2));
            assert(hex_of(t).len() == 2 * t.len());
            lemma_token_hex_roundtrip(t);
        }
    }
    assert(loaded =~= sessions);
}

} // verus!
