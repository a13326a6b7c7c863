//! Routing of requests and what the server answers on each route.
use vstd::prelude::*;
use crate::codec::{decode_token, hex_of, lemma_token_hex_roundtrip, to_hex, token_of};
use crate::credentials::{form_values, retrieve_sent_credentials, retrieve_sent_credentials_signin};
use crate::db::{add_user, add_user_outcome, append_failure, lines_view, pad_to};
use crate::session::{
    cookie_request, lemma_session_cookie_read_back, retrieve_session, session_of, SessionStore,
};
use crate::text::{
    byte_len, byte_len_capped, byte_len_exec, chars_of, decimal, has_byte_prefix, has_prefix, owned,
    push_decimal, push_repeat, push_str, repeat_char, string_of_range,
};

verus! {

// ---------------------------------------------------------------------------
// Routing
// ---------------------------------------------------------------------------

/// The pages and actions of the server, chosen by the request line.
#[derive(PartialEq, Eq, Structural, Debug, Clone, Copy)]
pub enum Route {
    Index,
    ToFetch,
    Favicon,
    CreateAccount,
    Faq,
    Documentation,
    Reviews,
    CreatedAccount,
    Signin,
    Signout,
    Connected,
    DoTheReq,
    Image,
    NotFound,
}

/// The request bytes start with the bytes of `lit`.
pub open spec fn starts_with_lit(buf: Seq<u8>, lit: &str) -> bool {
    has_prefix(buf, vstd::utf8::encode_utf8(lit@))
}

/// The route of a request, by the first request line that it starts with.
pub open spec fn route_of(buf: Seq<u8>) -> Route {
    if starts_with_lit(buf, "GET / HTTP/1.1\r\n") {
        Route::Index
    } else if starts_with_lit(buf, "GET /to_fetch HTTP/1.1\r\n") {
        Route::ToFetch
    } else if starts_with_lit(buf, "GET /favicon.ico HTTP/1.1\r\n") {
        Route::Favicon
    } else if starts_with_lit(buf, "GET /create_account HTTP/1.1\r\n") {
        Route::CreateAccount
    } else if starts_with_lit(buf, "GET /faq HTTP/1.1\r\n") {
        Route::Faq
    } else if starts_with_lit(buf, "GET /documentation HTTP/1.1\r\n") {
        Route::Documentation
    } else if starts_with_lit(buf, "GET /reviews HTTP/1.1\r\n") {
        Route::Reviews
    } else if starts_with_lit(buf, "POST /created_account HTTP/1.1\r\n") {
        Route::CreatedAccount
    } else if starts_with_lit(buf, "GET /signin HTTP/1.1\r\n") {
        Route::Signin
    } else if starts_with_lit(buf, "GET /signout HTTP/1.1\r\n") {
        Route::Signout
    } else if starts_with_lit(buf, "POST /connected HTTP/1.1\r\n") {
        Route::Connected
    } else if starts_with_lit(buf, "POST /do_the_req HTTP/1.1\r\n") {
        Route::DoTheReq
    } else if starts_with_lit(buf, "GET /media/img/ev_ui4.jpg HTTP/1.1\r\n") {
        Route::Image
    } else {
        Route::NotFound
    }
}

fn starts_with(buffer: &[u8], lit: &str) -> (b: bool)
    ensures
        b == starts_with_lit(buffer@, lit),
{
    has_byte_prefix(buffer, lit.as_bytes())
}

/// Chooses the route of a request from its first bytes.
pub fn route(buffer: &[u8]) -> (r: Route)
    ensures
        r == route_of(buffer@),
{
    if starts_with(buffer, "GET / HTTP/1.1\r\n") {
        Route::Index
    } else if starts_with(buffer, "GET /to_fetch HTTP/1.1\r\n") {
        Route::ToFetch
    } else if starts_with(buffer, "GET /favicon.ico HTTP/1.1\r\n") {
        Route::Favicon
    } else if starts_with(buffer, "GET /create_account HTTP/1.1\r\n") {
        Route::CreateAccount
    } else if starts_with(buffer, "GET /faq HTTP/1.1\r\n") {
        Route::Faq
    } else if starts_with(buffer, "GET /documentation HTTP/1.1\r\n") {
        Route::Documentation
    } else if starts_with(buffer, "GET /reviews HTTP/1.1\r\n") {
        Route::Reviews
    } else if starts_with(buffer, "POST /created_account HTTP/1.1\r\n") {
        Route::CreatedAccount
    } else if starts_with(buffer, "GET /signin HTTP/1.1\r\n") {
        Route::Signin
    } else if starts_with(buffer, "GET /signout HTTP/1.1\r\n") {
        Route::Signout
    } else if starts_with(buffer, "POST /connected HTTP/1.1\r\n") {
        Route::Connected
    } else if starts_with(buffer, "POST /do_the_req HTTP/1.1\r\n") {
        Route::DoTheReq
    } else if starts_with(buffer, "GET /media/img/ev_ui4.jpg HTTP/1.1\r\n") {
        Route::Image
    } else {
        Route::NotFound
    }
}

/// The template file of a route that serves a fixed page.
pub open spec fn template_of(r: Route) -> Option<Seq<char>> {
    match r {
        Route::CreateAccount => Some("templates/create_account.html"@),
        Route::Faq => Some("templates/faq.html"@),
        Route::Documentation => Some("templates/documentation.html"@),
        Route::Reviews => Some("templates/reviews.html"@),
        Route::Signin => Some("templates/signin.html"@),
        _ => None,
    }
}

/// The template file of a route that serves a fixed page.
pub fn template_path(r: Route) -> (p: Option<String>)
    ensures
        p matches Some(s) ==> template_of(r) == Some(s@),
        p is None ==> template_of(r) is None,
{
    match r {
        Route::CreateAccount => Some(owned("templates/create_account.html")),
        Route::Faq => Some(owned("templates/faq.html")),
        Route::Documentation => Some(owned("templates/documentation.html")),
        Route::Reviews => Some(owned("templates/reviews.html")),
        Route::Signin => Some(owned("templates/signin.html")),
        _ => None,
    }
}

/// The image file of a route that serves an image.
pub open spec fn media_of(r: Route) -> Option<Seq<char>> {
    match r {
        Route::Favicon => Some("media/ico/ico.ico"@),
        Route::Image => Some("media/img/ev_ui4.jpg"@),
        _ => None,
    }
}

/// The image file of a route that serves an image.
pub fn media_path(r: Route) -> (p: Option<String>)
    ensures
        p matches Some(s) ==> media_of(r) == Some(s@),
        p is None ==> media_of(r) is None,
{
    match r {
        Route::Favicon => Some(owned("media/ico/ico.ico")),
        Route::Image => Some(owned("media/img/ev_ui4.jpg")),
        _ => None,
    }
}

// ---------------------------------------------------------------------------
// Responses
// ---------------------------------------------------------------------------

/// A `200 OK` response carrying `content`, with its length in bytes.
pub open spec fn ok_response_of(content: Seq<char>) -> Seq<char> {
    "HTTP/1.1 200 OK\r\n Content-Length: "@ + decimal((byte_len(content) as usize) as nat)
        + "\r\n\r\n"@ + content
}

/// A `200 OK` response carrying `content`.
pub fn ok_response(content: &String) -> (r: String)
    ensures
        r@ == ok_response_of(content@),
{
    let mut r = owned("HTTP/1.1 200 OK\r\n Content-Length: ");
    push_decimal(&mut r, byte_len_exec(content) as u64);
    push_str(&mut r, "\r\n\r\n");
    push_str(&mut r, content.as_str());
    proof {
        assert(r@ =~= ok_response_of(content@));
    }
    r
}

/// The answer to a request whose session is not open.
pub fn cookie_not_found_response() -> (r: String)
    ensures
        r@ == "HTTP/1.1 200 OK\r\n Content-Length: 16\r\n\r\n Cookie not found"@,
{
    owned("HTTP/1.1 200 OK\r\n Content-Length: 16\r\n\r\n Cookie not found")
}

/// A redirection to the index page.
pub fn redirect_response() -> (r: String)
    ensures
        r@ == "HTTP/1.1 302 Found\r\nLocation: /\r\nContent-Length: 0\r\n\r\n"@,
{
    owned("HTTP/1.1 302 Found\r\nLocation: /\r\nContent-Length: 0\r\n\r\n")
}

/// The answer to an unknown request.
pub fn not_found_response() -> (r: String)
    ensures
        r@
            == "HTTP/1.1 404 NOT FOUND\r\nContent-Length: 17\r\nContent-Type: text/plain\r\nConnection: close\r\n\r\n404 Not Found Lol"@,
{
    owned(
        "HTTP/1.1 404 NOT FOUND\r\nContent-Length: 17\r\nContent-Type: text/plain\r\nConnection: close\r\n\r\n404 Not Found Lol",
    )
}

/// The content type of an image route: an icon for the favicon, JPEG for the picture.
pub open spec fn media_type_of(r: Route) -> Option<Seq<char>> {
    match r {
        Route::Favicon => Some("image/x-icon"@),
        Route::Image => Some("image/jpeg"@),
        _ => None,
    }
}

/// The head of a response carrying an image of type `ty` and `len` bytes.
pub open spec fn media_header_of(ty: Seq<char>, len: nat) -> Seq<char> {
    "HTTP/1.1 200 OK\r\nContent-Type: "@ + ty + "\r\nContent-Length: "@ + decimal(len)
        + "\r\nConnection: close\r\n\r\n"@
}

/// The head of the response that carries the image of route `r`, of `len`
/// bytes; `None` for a route that serves no image.
pub fn media_header(r: Route, len: usize) -> (h: Option<String>)
    ensures
        h matches Some(x) ==> media_type_of(r) matches Some(ty) && x@ == media_header_of(
            ty,
            len as nat,
        ),
        h is None ==> media_type_of(r) is None,
{
    let ty = match r {
        Route::Favicon => "image/x-icon",
        Route::Image => "image/jpeg",
        _ => {
            return None;
        },
    };
    let mut x = owned("HTTP/1.1 200 OK\r\nContent-Type: ");
    push_str(&mut x, ty);
    push_str(&mut x, "\r\nContent-Length: ");
    push_decimal(&mut x, len as u64);
    push_str(&mut x, "\r\nConnection: close\r\n\r\n");
    proof {
        assert(x@ =~= media_header_of(media_type_of(r)->0, len as nat));
    }
    Some(x)
}

/// The answer when no random bytes could be read for a new session.
pub fn random_failure_response() -> (r: String)
    ensures
        r@ == ok_response_of("Unable to read from '/dev/urandom'"@),
{
    ok_response(&owned("Unable to read from '/dev/urandom'"))
}

/// The content served on `/to_fetch`.
pub fn to_fetch_content() -> (r: String)
    ensures
        r@ == "{\"name\": \"Yolo\", \"age\": 34}"@,
{
    owned("{\"name\": \"Yolo\", \"age\": 34}")
}

/// A redirection to the index page that sets the session and user-name cookies.
pub open spec fn session_redirect_of(token: Seq<u8>, username: Seq<char>) -> Seq<char> {
    "HTTP/1.1 302 Found\r\nLocation: /\r\nContent-Length: 0\r\nSet-Cookie: session="@ + hex_of(
        token,
    ) + "; HttpOnly; Path=/; Max-Age=316224000\r\nSet-Cookie: username="@ + username
        + "; HttpOnly; Path=/; Max-Age=316224000\r\n\r\n"@
}

/// Opens the session `token` for `username`, after closing the session
/// `replaced` if there is one, and gives the redirection that sets the cookies.
pub fn open_session(
    sessions: &mut SessionStore,
    replaced: Option<[u8; 32]>,
    token: [u8; 32],
    username: &String,
) -> (r: String)
    ensures
        r@ == session_redirect_of(token@, username@),
        final(sessions)@ == (match replaced {
            Some(o) => old(sessions)@.remove(o@),
            None => old(sessions)@,
        }).insert(token@),
{
    let mut r = owned(
        "HTTP/1.1 302 Found\r\nLocation: /\r\nContent-Length: 0\r\nSet-Cookie: session=",
    );
    let hex = to_hex(&token);
    push_str(&mut r, hex.as_str());
    push_str(&mut r, "; HttpOnly; Path=/; Max-Age=316224000\r\nSet-Cookie: username=");
    push_str(&mut r, username.as_str());
    push_str(&mut r, "; HttpOnly; Path=/; Max-Age=316224000\r\n\r\n");
    proof {
        assert(r@ =~= session_redirect_of(token@, username@));
    }
    match replaced {
        Some(o) => {
            sessions.remove(&o);
        },
        None => {},
    }
    sessions.insert(token);
    r
}

// ---------------------------------------------------------------------------
// Requests that read the session cookie
// ---------------------------------------------------------------------------

/// `s` without the NUL characters that end it.
pub open spec fn trim_nul(s: Seq<char>) -> Seq<char>
    decreases s.len(),
{
    if s.len() > 0 && s.last() == '\0' {
        trim_nul(s.drop_last())
    } else {
        s
    }
}

/// Removes the NUL characters that end a request read into a zeroed buffer.
pub fn trim_nul_end(s: &String) -> (r: String)
    ensures
        r@ == trim_nul(s@),
{
    let v = chars_of(s.as_str());
    let mut n = v.len();
    assert(v@.take(n as int) =~= v@);
    while n > 0 && v[n - 1] == '\0'
        invariant
            n <= v@.len(),
            trim_nul(v@.take(n as int)) == trim_nul(v@),
        decreases n,
    {
        assert(v@.take(n as int).drop_last() =~= v@.take(n - 1));
        n = n - 1;
    }
    assert(v@.take(n as int) =~= v@.subrange(0, n as int));
    assert(trim_nul(v@.take(n as int)) == v@.take(n as int));
    string_of_range(v.as_slice(), 0, n)
}

/// The index page to serve: the connected one when the request carries the
/// cookie of an open session. `None` when the cookie's token does not read
/// as hexadecimal.
pub open spec fn index_page_of(req: Seq<char>, sessions: Set<Seq<u8>>) -> Option<Seq<char>> {
    match session_of(trim_nul(req)) {
        Err(_) => Some("templates/index.html"@),
        Ok((tok, _)) => match token_of(tok) {
            None => None,
            Some(t) => Some(
                if sessions.contains(t) {
                    "templates/connected_index.html"@
                } else {
                    "templates/index.html"@
                },
            ),
        },
    }
}

/// Chooses the index page to serve.
pub fn index_page(req: &String, sessions: &SessionStore) -> (r: Option<String>)
    ensures
        r matches Some(p) ==> index_page_of(req@, sessions@) == Some(p@),
        r is None ==> index_page_of(req@, sessions@) is None,
{
    let trimmed = trim_nul_end(req);
    match retrieve_session(&trimmed) {
        Err(_) => Some(owned("templates/index.html")),
        Ok((tok, _)) => match decode_token(tok.as_str()) {
            None => None,
            Some(t) => {
                if sessions.contains(&t) {
                    Some(owned("templates/connected_index.html"))
                } else {
                    Some(owned("templates/index.html"))
                }
            },
        },
    }
}

/// The answer to a sign-out, and the open sessions after it. `None` when
/// the cookie's token does not read as hexadecimal.
pub open spec fn signout_of(req: Seq<char>, sessions: Set<Seq<u8>>) -> Option<(Seq<char>, Set<Seq<u8>>)> {
    match session_of(req) {
        Err(e) => Some((ok_response_of(e), sessions)),
        Ok((tok, _)) => match token_of(tok) {
            None => None,
            Some(t) => if sessions.contains(t) {
                Some(
                    (
                        "HTTP/1.1 302 Found\r\nLocation: /\r\nContent-Length: 0\r\n\r\n"@,
                        sessions.remove(t),
                    ),
                )
            } else {
                Some(
                    ("HTTP/1.1 200 OK\r\n Content-Length: 16\r\n\r\n Cookie not found"@, sessions),
                )
            },
        },
    }
}

/// Signs out: closes the session of the request's cookie.
pub fn signout(req: &String, sessions: &mut SessionStore) -> (r: Option<String>)
    ensures
        r matches Some(resp) ==> signout_of(req@, old(sessions)@) == Some((resp@, final(sessions)@)),
        r is None ==> signout_of(req@, old(sessions)@) is None && final(sessions)@ == old(
            sessions,
        )@,
{
    match retrieve_session(req) {
        Err(e) => Some(ok_response(&e)),
        Ok((tok, _)) => match decode_token(tok.as_str()) {
            None => None,
            Some(t) => {
                if sessions.contains(&t) {
                    sessions.remove(&t);
                    Some(redirect_response())
                } else {
                    Some(cookie_not_found_response())
                }
            },
        },
    }
}

/// The user of a request on an open session, or the answer to give instead.
/// `None` when the cookie's token does not read as hexadecimal.
pub open spec fn session_user_of(req: Seq<char>, sessions: Set<Seq<u8>>) -> Option<Result<Seq<char>, Seq<char>>> {
    match session_of(req) {
        Err(e) => Some(Err(ok_response_of(e))),
        Ok((tok, user)) => match token_of(tok) {
            None => None,
            Some(t) => if sessions.contains(t) {
                Some(Ok(user))
            } else {
                Some(Err("HTTP/1.1 200 OK\r\n Content-Length: 16\r\n\r\n Cookie not found"@))
            },
        },
    }
}

/// The view of a `Result` carrying a `String` either way.
pub open spec fn text_result(r: Result<String, String>) -> Result<Seq<char>, Seq<char>> {
    match r {
        Ok(s) => Ok(s@),
        Err(m) => Err(m@),
    }
}

/// Finds the user of a request made on an open session.
pub fn session_user(req: &String, sessions: &SessionStore) -> (r: Option<Result<String, String>>)
    ensures
        r matches Some(v) ==> session_user_of(req@, sessions@) == Some(text_result(v)),
        r is None ==> session_user_of(req@, sessions@) is None,
{
    match retrieve_session(req) {
        Err(e) => Some(Err(ok_response(&e))),
        Ok((tok, user)) => match decode_token(tok.as_str()) {
            None => None,
            Some(t) => {
                if sessions.contains(&t) {
                    Some(Ok(user))
                } else {
                    Some(Err(cookie_not_found_response()))
                }
            },
        },
    }
}

/// The JSON answer to a request, given how recording its cost went.
pub open spec fn request_json_of(outcome: Result<(), Seq<char>>) -> Seq<char> {
    match outcome {
        Ok(()) => "{\"success\": 1, \"error\": \"\"}"@,
        Err(e) => if e == "Not enough tokens"@ {
            "{\"success\": 0, \"error\": \"not_enough\"}"@
        } else {
            "{\"success\": 0, \"error\": \""@ + e + "\"}"@
        },
    }
}

/// The JSON answer to a request, given how recording its cost went.
pub fn request_json(outcome: &Result<(), String>) -> (r: String)
    ensures
        r@ == request_json_of(match outcome {
            Ok(()) => Ok(()),
            Err(e) => Err(e@),
        }),
{
    match outcome {
        Ok(()) => owned("{\"success\": 1, \"error\": \"\"}"),
        Err(e) => {
            let not_enough = owned("Not enough tokens");
            if *e == not_enough {
                owned("{\"success\": 0, \"error\": \"not_enough\"}")
            } else {
                let mut r = owned("{\"success\": 0, \"error\": \"");
                push_str(&mut r, e.as_str());
                push_str(&mut r, "\"}");
                proof {
                    assert(r@ =~= "{\"success\": 0, \"error\": \""@ + e@ + "\"}"@);
                }
                r
            }
        },
    }
}

// ---------------------------------------------------------------------------
// Sign-up and sign-in
// ---------------------------------------------------------------------------

/// The outcome of a sign-up request: the user name and the database line to
/// append, or the answer to give. `None` when the form's e-mail is empty.
pub open spec fn signup_of(req: Seq<char>, lines: Seq<Seq<char>>, read_failed: bool) -> Option<
    Result<(Seq<char>, Seq<char>), Seq<char>>,
> {
    match form_values(trim_nul(req), 3) {
        None => Some(Err(ok_response_of("Bad request format"@))),
        Some(f) => if f[2].len() == 0 {
            None
        } else {
            match add_user_outcome(f[0], f[1], f[2], lines, read_failed) {
                Err(m) => Some(Err(ok_response_of(m))),
                Ok(rec) => Some(Ok((f[0], rec))),
            }
        },
    }
}

/// The view of a pair of `String`s or an answer.
pub open spec fn pair_or_text(r: Result<(String, String), String>) -> Result<(Seq<char>, Seq<char>), Seq<char>> {
    match r {
        Ok((a, b)) => Ok((a@, b@)),
        Err(m) => Err(m@),
    }
}

/// Reads a sign-up request and checks it against the database lines read.
pub fn signup(req: &String, lines: &Vec<String>, read_failed: bool) -> (r: Option<
    Result<(String, String), String>,
>)
    ensures
        r matches Some(v) ==> signup_of(req@, lines_view(lines@), read_failed) == Some(
            pair_or_text(v),
        ),
        r is None ==> signup_of(req@, lines_view(lines@), read_failed) is None,
{
    let trimmed = trim_nul_end(req);
    match retrieve_sent_credentials(&trimmed) {
        Err(e) => Some(Err(ok_response(&e))),
        Ok((username, password, email)) => {
            let ev = chars_of(email.as_str());
            if ev.len() == 0 {
                return None;
            }
            match add_user(&username, &password, &email, lines, read_failed) {
                Err(m) => Some(Err(ok_response(&m))),
                Ok(record) => Some(Ok((username, record))),
            }
        },
    }
}

/// What a sign-in request asks: the user name and password padded to 12
/// and 15 bytes and the token of the session it replaces, or the answer to
/// give. `None` when the name or password is too long to pad, or the
/// cookie's token does not read as hexadecimal.
pub open spec fn signin_of(req: Seq<char>) -> Option<Result<(Seq<char>, Seq<char>, Seq<u8>), Seq<char>>> {
    let r = trim_nul(req);
    match form_values(r, 2) {
        None => Some(Err(ok_response_of("Bad request format"@))),
        Some(f) => if byte_len(f[0]) > 12 || byte_len(f[1]) > 15 {
            None
        } else {
            match session_of(r) {
                Err(e) => Some(Err(ok_response_of(e))),
                Ok((tok, _)) => match token_of(tok) {
                    None => None,
                    Some(t) => Some(Ok((pad_to(f[0], 12), pad_to(f[1], 15), t))),
                },
            }
        },
    }
}

/// The view of a sign-in request.
pub open spec fn signin_view(r: Result<(String, String, [u8; 32]), String>) -> Result<
    (Seq<char>, Seq<char>, Seq<u8>),
    Seq<char>,
> {
    match r {
        Ok((u, p, t)) => Ok((u@, p@, t@)),
        Err(m) => Err(m@),
    }
}

fn pad_string(s: &String, width: usize) -> (r: Option<String>)
    requires
        width < 100,
    ensures
        r matches Some(p) ==> byte_len(s@) <= width && p@ == pad_to(s@, width as nat),
        r is None ==> byte_len(s@) > width,
{
    let v = chars_of(s.as_str());
    let n = byte_len_capped(v.as_slice(), width);
    if n > width {
        return None;
    }
    let mut p = s.clone();
    push_repeat(&mut p, ' ', width - n);
    Some(p)
}

/// Reads a sign-in request.
pub fn signin_request(req: &String) -> (r: Option<Result<(String, String, [u8; 32]), String>>)
    ensures
        r matches Some(v) ==> signin_of(req@) == Some(signin_view(v)),
        r is None ==> signin_of(req@) is None,
{
    let trimmed = trim_nul_end(req);
    match retrieve_sent_credentials_signin(&trimmed) {
        Err(e) => Some(Err(ok_response(&e))),
        Ok((username, password)) => {
            let u = match pad_string(&username, 12) {
                Some(u) => u,
                None => {
                    return None;
                },
            };
            let p = match pad_string(&password, 15) {
                Some(p) => p,
                None => {
                    return None;
                },
            };
            match retrieve_session(&trimmed) {
                Err(e) => Some(Err(ok_response(&e))),
                Ok((tok, _)) => match decode_token(tok.as_str()) {
                    None => None,
                    Some(t) => Some(Ok((u, p, t))),
                },
            }
        },
    }
}

/// The answer to a sign-up once its line was appended (`appended`) or not,
/// given the random token read for its session when one could be read: the
/// session is opened only when both succeeded.
pub fn signup_reply(
    sessions: &mut SessionStore,
    username: &String,
    appended: bool,
    token: Option<[u8; 32]>,
) -> (r: String)
    ensures
        !appended ==> r@ == ok_response_of("Error appending to db.txt"@)
            && final(sessions)@ == old(sessions)@,
        appended && token is None ==> r@ == ok_response_of("Unable to read from '/dev/urandom'"@)
            && final(sessions)@ == old(sessions)@,
        appended ==> (token matches Some(t) ==> r@ == session_redirect_of(t@, username@)
            && final(sessions)@ == old(sessions)@.insert(t@)),
{
    if !appended {
        return ok_response(&append_failure());
    }
    match token {
        None => random_failure_response(),
        Some(t) => open_session(sessions, None, t, username),
    }
}

/// The answer to a sign-in once its credentials were checked (`verdict`):
/// `None` when they were refused, and the refusal page is served; otherwise
/// the answer when no random token could be read, or the redirection that
/// opens the new session in place of the session `previous`.
pub fn signin_reply(
    sessions: &mut SessionStore,
    verdict: &Result<(), String>,
    token: Option<[u8; 32]>,
    previous: [u8; 32],
    username: &String,
) -> (r: Option<String>)
    ensures
        verdict is Err ==> r is None && final(sessions)@ == old(sessions)@,
        verdict is Ok && token is None ==> (r matches Some(x) && x@ == ok_response_of(
            "Unable to read from '/dev/urandom'"@,
        )) && final(sessions)@ == old(sessions)@,
        verdict is Ok ==> (token matches Some(t) ==> (r matches Some(x) && x@ == session_redirect_of(
            t@,
            username@,
        )) && final(sessions)@ == old(sessions)@.remove(previous@).insert(t@)),
{
    match verdict {
        Err(_) => None,
        Ok(()) => match token {
            None => Some(random_failure_response()),
            Some(t) => Some(open_session(sessions, Some(previous), t, username)),
        },
    }
}

/// The page served after a refused sign-in.
pub fn not_valid_signin_path() -> (p: String)
    ensures
        p@ == "templates/not_valid_signin.html"@,
{
    owned("templates/not_valid_signin.html")
}

// ---------------------------------------------------------------------------
// What each route does
// ---------------------------------------------------------------------------

/// What the server does for a request once its route is known.
pub enum Plan {
    /// Send this answer.
    Answer(String),
    /// Send this answer and close the connection.
    AnswerAndClose(String),
    /// Send, in a `200 OK`, the page read from this template file.
    Page(String),
    /// Send the image read from this file, headed by `media_header`.
    Image(String),
    /// Wait five seconds, then send this content in a `200 OK`.
    Delayed(String),
    /// Check this sign-up request against the database (`signup`), append the
    /// line it gives, and answer with `signup_reply`.
    SignUp(String),
    /// Check this padded name and password against the database
    /// (`verify_credentials`), and answer with `signin_reply`, which replaces
    /// the session of this token.
    SignIn(String, String, [u8; 32]),
    /// Record a request of this user in the database (`do_the_req`), and
    /// answer with `request_json`.
    Request(String),
}

/// The view of a plan.
pub enum Planned {
    Answer(Seq<char>),
    AnswerAndClose(Seq<char>),
    Page(Seq<char>),
    Image(Seq<char>),
    Delayed(Seq<char>),
    SignUp(Seq<char>),
    SignIn(Seq<char>, Seq<char>, Seq<u8>),
    Request(Seq<char>),
}

impl View for Plan {
    type V = Planned;

    open spec fn view(&self) -> Planned {
        match self {
            Plan::Answer(a) => Planned::Answer(a@),
            Plan::AnswerAndClose(a) => Planned::AnswerAndClose(a@),
            Plan::Page(p) => Planned::Page(p@),
            Plan::Image(p) => Planned::Image(p@),
            Plan::Delayed(c) => Planned::Delayed(c@),
            Plan::SignUp(q) => Planned::SignUp(q@),
            Plan::SignIn(u, p, t) => Planned::SignIn(u@, p@, t@),
            Plan::Request(u) => Planned::Request(u@),
        }
    }
}

/// The text of a request, when its bytes are UTF-8.
pub open spec fn text_view(req: Option<String>) -> Option<Seq<char>> {
    match req {
        Some(q) => Some(q@),
        None => None,
    }
}

/// The plan for a request on route `r`, whose text is `req` (`None` when its
/// bytes are not UTF-8), and the open sessions after it. `None` when a route
/// that reads the request gets no text, or when the route's reading of the
/// request gives `None`.
pub open spec fn plan_of(r: Route, req: Option<Seq<char>>, sessions: Set<Seq<u8>>) -> Option<(Planned, Set<Seq<u8>>)> {
    match r {
        Route::Favicon | Route::Image => Some((Planned::Image(media_of(r)->0), sessions)),
        Route::CreateAccount | Route::Faq | Route::Documentation | Route::Reviews | Route::Signin => Some(
            (Planned::Page(template_of(r)->0), sessions),
        ),
        Route::ToFetch => Some((Planned::Delayed("{\"name\": \"Yolo\", \"age\": 34}"@), sessions)),
        Route::NotFound => Some(
            (
                Planned::AnswerAndClose(
                    "HTTP/1.1 404 NOT FOUND\r\nContent-Length: 17\r\nContent-Type: text/plain\r\nConnection: close\r\n\r\n404 Not Found Lol"@,
                ),
                sessions,
            ),
        ),
        Route::Index => match req {
            None => None,
            Some(q) => match index_page_of(q, sessions) {
                None => None,
                Some(p) => Some((Planned::Page(p), sessions)),
            },
        },
        Route::Signout => match req {
            None => None,
            Some(q) => match signout_of(q, sessions) {
                None => None,
                Some((a, after)) => Some((Planned::Answer(a), after)),
            },
        },
        Route::CreatedAccount => match req {
            None => None,
            Some(q) => Some((Planned::SignUp(q), sessions)),
        },
        Route::Connected => match req {
            None => None,
            Some(q) => match signin_of(q) {
                None => None,
                Some(Err(a)) => Some((Planned::Answer(a), sessions)),
                Some(Ok((u, p, t))) => Some((Planned::SignIn(u, p, t), sessions)),
            },
        },
        Route::DoTheReq => match req {
            None => None,
            Some(q) => match session_user_of(q, sessions) {
                None => None,
                Some(Err(a)) => Some((Planned::Answer(a), sessions)),
                Some(Ok(u)) => Some((Planned::Request(u), sessions)),
            },
        },
    }
}

/// Plans what the server does for a request on route `r` whose text is `req`
/// (`None` when its bytes are not UTF-8); a sign-out closes its session here.
pub fn plan(r: Route, req: Option<String>, sessions: &mut SessionStore) -> (p: Option<Plan>)
    ensures
        p matches Some(x) ==> plan_of(r, text_view(req), old(sessions)@) == Some(
            (x@, final(sessions)@),
        ),
        p is None ==> plan_of(r, text_view(req), old(sessions)@) is None && final(sessions)@ == old(sessions)@,
{
    match r {
        Route::Favicon | Route::Image => match media_path(r) {
            Some(path) => Some(Plan::Image(path)),
            None => None,
        },
        Route::CreateAccount | Route::Faq | Route::Documentation | Route::Reviews | Route::Signin => {
            match template_path(r) {
                Some(path) => Some(Plan::Page(path)),
                None => None,
            }
        },
        Route::ToFetch => Some(Plan::Delayed(to_fetch_content())),
        Route::NotFound => Some(Plan::AnswerAndClose(not_found_response())),
        Route::Index => match req {
            None => None,
            Some(q) => match index_page(&q, sessions) {
                None => None,
                Some(page) => Some(Plan::Page(page)),
            },
        },
        Route::Signout => match req {
            None => None,
            Some(q) => match signout(&q, sessions) {
                None => None,
                Some(a) => Some(Plan::Answer(a)),
            },
        },
        Route::CreatedAccount => match req {
            None => None,
            Some(q) => Some(Plan::SignUp(q)),
        },
        Route::Connected => match req {
            None => None,
            Some(q) => match signin_request(&q) {
                None => None,
                Some(Err(a)) => Some(Plan::Answer(a)),
                Some(Ok((u, pw, t))) => Some(Plan::SignIn(u, pw, t)),
            },
        },
        Route::DoTheReq => match req {
            None => None,
            Some(q) => match session_user(&q, sessions) {
                None => None,
                Some(Err(a)) => Some(Plan::Answer(a)),
                Some(Ok(u)) => Some(Plan::Request(u)),
            },
        },
    }
}

/// Which routes may change what: planning a request changes the open
/// sessions only on a sign-out; the database is read and changed only on
/// the sign-up, sign-in and request routes, by the plans `SignUp`, `SignIn`
/// and `Request`, whose continuations are the only ones that open sessions
/// (`signup_reply`, `signin_reply`) or write the database (the line of
/// `signup`, the write of `do_the_req`).
pub proof fn lemma_route_effects(r: Route, req: Option<Seq<char>>, sessions: Set<Seq<u8>>)
    ensures
        plan_of(r, req, sessions) matches Some((p, after)) ==> {
            &&& after != sessions ==> r == Route::Signout
            &&& p is SignUp <==> r == Route::CreatedAccount
            &&& p is SignIn ==> r == Route::Connected
            &&& p is Request ==> r == Route::DoTheReq
        },
{
}

// ---------------------------------------------------------------------------
// Laws of sessions across requests
// ---------------------------------------------------------------------------

/// What a request built from the cookies of session `t` and user `user` is
/// answered, for the pages that read the session: the connected index page
/// while the session is open and the plain one once it is closed; sign-out
/// closes it; a request on the open session is made as `user`, and is refused
/// once the session is closed.
pub proof fn lemma_session_lifecycle(
    first: Seq<char>,
    t: Seq<u8>,
    user: Seq<char>,
    sessions: Set<Seq<u8>>,
)
    requires
        t.len() == 32,
        user.len() > 0,
        user.last() != '\0',
        forall|i: int| 0 <= i < user.len() ==> user[i] != '=' && user[i] != '\r',
        forall|i: int| 0 <= i < first.len() ==> first[i] != '\r',
        !has_prefix(first, "Cookie: "@),
    ensures
        index_page_of(cookie_request(first, t, user), sessions.insert(t)) == Some(
            "templates/connected_index.html"@,
        ),
        index_page_of(cookie_request(first, t, user), sessions.remove(t)) == Some(
            "templates/index.html"@,
        ),
        signout_of(cookie_request(first, t, user), sessions.insert(t)) == Some(
            (
                "HTTP/1.1 302 Found\r\nLocation: /\r\nContent-Length: 0\r\n\r\n"@,
                sessions.insert(t).remove(t),
            ),
        ),
        session_user_of(cookie_request(first, t, user), sessions.insert(t)) == Some(
            Ok::<_, Seq<char>>(user),
        ),
        session_user_of(cookie_request(first, t, user), sessions.remove(t)) == Some(
            Err::<Seq<char>, _>("HTTP/1.1 200 OK\r\n Content-Length: 16\r\n\r\n Cookie not found"@),
        ),
{
    let req = cookie_request(first, t, user);
    lemma_session_cookie_read_back(first, t, user);
    lemma_token_hex_roundtrip(t);
    assert(req.last() == user.last());
    assert(trim_nul(req) == req);
}

} // verus!
