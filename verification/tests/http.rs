use http_server::codec::to_hex;
use http_server::db::add_user;
use http_server::http::{
    cookie_not_found_response, index_page, media_header, media_path, not_found_response,
    not_valid_signin_path, ok_response, open_session, random_failure_response, redirect_response,
    request_json, route, session_user, signin_reply, signin_request, signout, signup, signup_reply,
    template_path, to_fetch_content, trim_nul_end, Route, plan, Plan,
};
use http_server::session::SessionStore;

fn s(x: &str) -> String {
    x.to_string()
}

fn token(seed: u8) -> [u8; 32] {
    let mut t = [0u8; 32];
    for i in 0..32 {
        t[i] = seed ^ (i as u8);
    }
    t
}

fn with_cookie(first: &str, t: &[u8; 32], user: &str, body: &str) -> String {
    format!("{}\r\nHost: x\r\nCookie: session={}; username={}\r\n\r\n{}", first, to_hex(t), user, body)
}

fn padded_buffer(req: &str) -> String {
    let mut b = req.to_string();
    b.push_str(&"\0".repeat(20));
    b
}

#[test]
fn routes_by_request_line() {
    let cases = [
        ("GET / HTTP/1.1\r\n", Route::Index),
        ("GET /to_fetch HTTP/1.1\r\n", Route::ToFetch),
        ("GET /favicon.ico HTTP/1.1\r\n", Route::Favicon),
        ("GET /create_account HTTP/1.1\r\n", Route::CreateAccount),
        ("GET /faq HTTP/1.1\r\n", Route::Faq),
        ("GET /documentation HTTP/1.1\r\n", Route::Documentation),
        ("GET /reviews HTTP/1.1\r\n", Route::Reviews),
        ("POST /created_account HTTP/1.1\r\n", Route::CreatedAccount),
        ("GET /signin HTTP/1.1\r\n", Route::Signin),
        ("GET /signout HTTP/1.1\r\n", Route::Signout),
        ("POST /connected HTTP/1.1\r\n", Route::Connected),
        ("POST /do_the_req HTTP/1.1\r\n", Route::DoTheReq),
        ("GET /media/img/ev_ui4.jpg HTTP/1.1\r\n", Route::Image),
    ];
    for (line, r) in cases {
        let mut buf = [0u8; 1024];
        let req = format!("{}Host: x\r\n\r\n", line);
        buf[..req.len()].copy_from_slice(req.as_bytes());
        assert_eq!(route(&buf), r);
    }
    assert_eq!(route(b"GET /faq HTTP/1.0\r\n"), Route::NotFound);
    assert_eq!(route(b"GET / HTTP/1.1"), Route::NotFound);
    assert_eq!(route(b""), Route::NotFound);
}

#[test]
fn pages_and_media_paths() {
    assert_eq!(template_path(Route::Faq), Some(s("templates/faq.html")));
    assert_eq!(template_path(Route::CreateAccount), Some(s("templates/create_account.html")));
    assert_eq!(template_path(Route::Documentation), Some(s("templates/documentation.html")));
    assert_eq!(template_path(Route::Reviews), Some(s("templates/reviews.html")));
    assert_eq!(template_path(Route::Signin), Some(s("templates/signin.html")));
    assert_eq!(template_path(Route::Index), None);
    assert_eq!(media_path(Route::Favicon), Some(s("media/ico/ico.ico")));
    assert_eq!(media_path(Route::Image), Some(s("media/img/ev_ui4.jpg")));
    assert_eq!(media_path(Route::Faq), None);
    assert_eq!(not_valid_signin_path(), "templates/not_valid_signin.html");
}

#[test]
fn responses_carry_the_byte_length() {
    assert_eq!(ok_response(&s("héllo")), "HTTP/1.1 200 OK\r\n Content-Length: 6\r\n\r\nhéllo");
    assert_eq!(ok_response(&s("")), "HTTP/1.1 200 OK\r\n Content-Length: 0\r\n\r\n");
    assert_eq!(
        media_header(Route::Favicon, 1234),
        Some(s("HTTP/1.1 200 OK\r\nContent-Type: image/x-icon\r\nContent-Length: 1234\r\nConnection: close\r\n\r\n"))
    );
    assert_eq!(
        media_header(Route::Image, 0),
        Some(s("HTTP/1.1 200 OK\r\nContent-Type: image/jpeg\r\nContent-Length: 0\r\nConnection: close\r\n\r\n"))
    );
    assert_eq!(media_header(Route::Index, 5), None);
    assert_eq!(
        random_failure_response(),
        "HTTP/1.1 200 OK\r\n Content-Length: 34\r\n\r\nUnable to read from '/dev/urandom'"
    );
    assert_eq!(cookie_not_found_response(), "HTTP/1.1 200 OK\r\n Content-Length: 16\r\n\r\n Cookie not found");
    assert_eq!(redirect_response(), "HTTP/1.1 302 Found\r\nLocation: /\r\nContent-Length: 0\r\n\r\n");
    assert_eq!(
        not_found_response(),
        "HTTP/1.1 404 NOT FOUND\r\nContent-Length: 17\r\nContent-Type: text/plain\r\nConnection: close\r\n\r\n404 Not Found Lol"
    );
    assert_eq!(to_fetch_content(), r#"{"name": "Yolo", "age": 34}"#);
}

#[test]
fn trims_the_nul_bytes_of_the_buffer() {
    assert_eq!(trim_nul_end(&s("abc\0\0\0")), "abc");
    assert_eq!(trim_nul_end(&s("a\0b\0")), "a\0b");
    assert_eq!(trim_nul_end(&s("\0\0")), "");
}

#[test]
fn signing_in_opens_a_session_seen_by_the_index() {
    let mut sessions = SessionStore::new();
    let t = token(7);
    let reply = open_session(&mut sessions, None, t, &s("bob"));
    assert_eq!(
        reply,
        format!(
            "HTTP/1.1 302 Found\r\nLocation: /\r\nContent-Length: 0\r\nSet-Cookie: session={}; HttpOnly; Path=/; Max-Age=316224000\r\nSet-Cookie: username=bob; HttpOnly; Path=/; Max-Age=316224000\r\n\r\n",
            to_hex(&t)
        )
    );
    let req = padded_buffer(&with_cookie("GET / HTTP/1.1", &t, "bob", ""));
    assert_eq!(index_page(&req, &sessions), Some(s("templates/connected_index.html")));
    let other = padded_buffer(&with_cookie("GET / HTTP/1.1", &token(8), "bob", ""));
    assert_eq!(index_page(&other, &sessions), Some(s("templates/index.html")));
    assert_eq!(index_page(&s("GET / HTTP/1.1\r\n\r\n"), &sessions), Some(s("templates/index.html")));
    let bad = padded_buffer(&format!("GET / HTTP/1.1\r\nCookie: session={}; username=bob\r\n", "z".repeat(64)));
    assert_eq!(index_page(&bad, &sessions), None);
}

#[test]
fn signing_in_again_replaces_the_session() {
    let mut sessions = SessionStore::new();
    let a = token(1);
    let b = token(2);
    open_session(&mut sessions, None, a, &s("bob"));
    open_session(&mut sessions, Some(a), b, &s("bob"));
    assert!(!sessions.contains(&a));
    assert!(sessions.contains(&b));
}

#[test]
fn signing_out_closes_the_session() {
    let mut sessions = SessionStore::new();
    let t = token(3);
    sessions.insert(t);
    let req = with_cookie("GET /signout HTTP/1.1", &t, "bob", "");
    assert_eq!(signout(&req, &mut sessions), Some(redirect_response()));
    assert!(!sessions.contains(&t));
    assert_eq!(signout(&req, &mut sessions), Some(cookie_not_found_response()));
    assert_eq!(
        signout(&s("GET /signout HTTP/1.1\r\n\r\n"), &mut sessions),
        Some(ok_response(&s("Cookie field was not found")))
    );
}

#[test]
fn requests_need_an_open_session() {
    let mut sessions = SessionStore::new();
    let t = token(4);
    let req = with_cookie("POST /do_the_req HTTP/1.1", &t, "bob", "");
    assert_eq!(session_user(&req, &sessions), Some(Err(cookie_not_found_response())));
    sessions.insert(t);
    assert_eq!(session_user(&req, &sessions), Some(Ok(s("bob"))));
    assert_eq!(
        session_user(&s("POST /do_the_req HTTP/1.1\r\n\r\n"), &sessions),
        Some(Err(ok_response(&s("Cookie field was not found"))))
    );
}

#[test]
fn request_answers_in_json() {
    assert_eq!(request_json(&Ok(())), r#"{"success": 1, "error": ""}"#);
    assert_eq!(request_json(&Err(s("Not enough tokens"))), r#"{"success": 0, "error": "not_enough"}"#);
    assert_eq!(
        request_json(&Err(s("Could not locate the username"))),
        r#"{"success": 0, "error": "Could not locate the username"}"#
    );
}

#[test]
fn sign_up_gives_the_line_to_append() {
    let req = padded_buffer("POST /created_account HTTP/1.1\r\nHost: x\r\n\r\nusername=bob&password=secret12&email=bob%40mail.com");
    let expected = add_user(&s("bob"), &s("secret12"), &s("bob@mail.com"), &Vec::new(), false).unwrap();
    assert_eq!(signup(&req, &Vec::new(), false), Some(Ok((s("bob"), expected.clone()))));
    let lines = vec![expected];
    assert_eq!(
        signup(&req, &lines, false),
        Some(Err(ok_response(&s("Username already taken"))))
    );
    assert_eq!(
        signup(&s("POST /created_account HTTP/1.1\r\n\r\nusername=bob"), &lines, false),
        Some(Err(ok_response(&s("Bad request format"))))
    );
    assert_eq!(
        signup(&s("POST /created_account HTTP/1.1\r\n\r\nusername=bob&password=secret12&email="), &lines, false),
        None
    );
}

#[test]
fn sign_in_request_pads_the_credentials() {
    let t = token(9);
    let req = padded_buffer(&with_cookie("POST /connected HTTP/1.1", &t, "bob", "username=bob&password=secret12"));
    assert_eq!(
        signin_request(&req),
        Some(Ok((format!("{:<12}", "bob"), format!("{:<15}", "secret12"), t)))
    );
    let no_cookie = s("POST /connected HTTP/1.1\r\n\r\nusername=bob&password=secret12");
    assert_eq!(signin_request(&no_cookie), Some(Err(ok_response(&s("Cookie field was not found")))));
    let long_name = with_cookie("POST /connected HTTP/1.1", &t, "bob", "username=thirteen_char&password=secret12");
    assert_eq!(signin_request(&long_name), None);
    let bad_form = with_cookie("POST /connected HTTP/1.1", &t, "bob", "username=bob");
    assert_eq!(signin_request(&bad_form), Some(Err(ok_response(&s("Bad request format")))));
}

#[test]
fn sign_up_reply_opens_a_session_only_after_the_append_and_the_token() {
    let mut sessions = SessionStore::new();
    let t = token(9);
    assert_eq!(
        signup_reply(&mut sessions, &s("bob"), false, Some(t)),
        ok_response(&s("Error appending to db.txt"))
    );
    assert!(!sessions.contains(&t));
    assert_eq!(signup_reply(&mut sessions, &s("bob"), true, None), random_failure_response());
    assert!(sessions.tokens().is_empty());
    let mut expected = SessionStore::new();
    let redirect = open_session(&mut expected, None, t, &s("bob"));
    assert_eq!(signup_reply(&mut sessions, &s("bob"), true, Some(t)), redirect);
    assert!(sessions.contains(&t));
}

#[test]
fn sign_in_reply_replaces_the_session_only_when_accepted() {
    let mut sessions = SessionStore::new();
    let old = token(10);
    let new = token(11);
    sessions.insert(old);
    let refused: Result<(), String> = Err(s("Credentials not valid"));
    assert_eq!(signin_reply(&mut sessions, &refused, Some(new), old, &s("bob")), None);
    assert!(sessions.contains(&old) && !sessions.contains(&new));
    let accepted: Result<(), String> = Ok(());
    assert_eq!(signin_reply(&mut sessions, &accepted, None, old, &s("bob")), Some(random_failure_response()));
    assert!(sessions.contains(&old));
    let reply = signin_reply(&mut sessions, &accepted, Some(new), old, &s("bob")).unwrap();
    assert!(reply.starts_with("HTTP/1.1 302 Found\r\n"));
    assert!(reply.contains(&to_hex(&new)));
    assert!(!sessions.contains(&old) && sessions.contains(&new));
}

fn plan_kind(p: &Option<Plan>) -> String {
    match p {
        None => s("none"),
        Some(Plan::Answer(a)) => format!("answer {}", a),
        Some(Plan::AnswerAndClose(a)) => format!("close {}", a),
        Some(Plan::Page(p)) => format!("page {}", p),
        Some(Plan::Image(p)) => format!("image {}", p),
        Some(Plan::Delayed(c)) => format!("delayed {}", c),
        Some(Plan::SignUp(q)) => format!("signup {}", q),
        Some(Plan::SignIn(u, p, _)) => format!("signin {}|{}", u, p),
        Some(Plan::Request(u)) => format!("request {}", u),
    }
}

#[test]
fn plans_by_route() {
    let mut sessions = SessionStore::new();
    let t = token(12);
    sessions.insert(t);
    assert_eq!(plan_kind(&plan(Route::Faq, None, &mut sessions)), "page templates/faq.html");
    assert_eq!(plan_kind(&plan(Route::Image, None, &mut sessions)), "image media/img/ev_ui4.jpg");
    assert_eq!(plan_kind(&plan(Route::Favicon, None, &mut sessions)), "image media/ico/ico.ico");
    assert_eq!(
        plan_kind(&plan(Route::ToFetch, None, &mut sessions)),
        "delayed {\"name\": \"Yolo\", \"age\": 34}"
    );
    assert_eq!(
        plan_kind(&plan(Route::NotFound, None, &mut sessions)),
        format!("close {}", not_found_response())
    );
    assert_eq!(plan_kind(&plan(Route::Index, None, &mut sessions)), "none");
    assert_eq!(plan_kind(&plan(Route::CreatedAccount, None, &mut sessions)), "none");
    let req = with_cookie("GET / HTTP/1.1", &t, "bob", "");
    assert_eq!(
        plan_kind(&plan(Route::Index, Some(req.clone()), &mut sessions)),
        "page templates/connected_index.html"
    );
    assert_eq!(plan_kind(&plan(Route::DoTheReq, Some(req.clone()), &mut sessions)), "request bob");
    assert_eq!(plan_kind(&plan(Route::CreatedAccount, Some(s("x")), &mut sessions)), "signup x");
    assert!(sessions.contains(&t));
    assert_eq!(
        plan_kind(&plan(Route::Signout, Some(req.clone()), &mut sessions)),
        format!("answer {}", redirect_response())
    );
    assert!(!sessions.contains(&t));
    assert_eq!(
        plan_kind(&plan(Route::DoTheReq, Some(req), &mut sessions)),
        format!("answer {}", cookie_not_found_response())
    );
    let signin = with_cookie("POST /connected HTTP/1.1", &t, "bob", "username=bob&password=secret12");
    assert_eq!(
        plan_kind(&plan(Route::Connected, Some(signin), &mut sessions)),
        "signin bob         |secret12       "
    );
}
