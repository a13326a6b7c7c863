use http_server::codec::to_hex;
use http_server::session::{load_sessions, retrieve_session, saved_lines, SessionStore};

fn token(seed: u8) -> [u8; 32] {
    let mut t = [0u8; 32];
    for i in 0..32 {
        t[i] = seed.wrapping_add((i as u8).wrapping_mul(13));
    }
    t
}

fn cookie_request(t: &[u8; 32], user: &str) -> String {
    format!("GET / HTTP/1.1\r\nHost: x\r\nCookie: session={}; username={}\r\n\r\n", to_hex(t), user)
}

#[test]
fn session_cookie_is_read_back() {
    let t = token(5);
    assert_eq!(
        retrieve_session(&cookie_request(&t, "bob")),
        Ok((to_hex(&t), "bob".to_string()))
    );
}

#[test]
fn session_needs_a_cookie_line() {
    assert_eq!(
        retrieve_session(&"GET / HTTP/1.1\r\nHost: x\r\n\r\n".to_string()),
        Err("Cookie field was not found".to_string())
    );
    assert_eq!(
        retrieve_session(&"GET / HTTP/1.1\r\ncookie: session=a=b\r\n\r\n".to_string()),
        Err("Cookie field was not found".to_string())
    );
}

#[test]
fn session_refuses_requests_of_more_than_40_lines() {
    let mut req = "\r\n".repeat(39);
    req.push_str("Cookie: session=x; username=y");
    assert_eq!(req.split("\r\n").count(), 40);
    assert_eq!(retrieve_session(&req), Err("Cookie format is not valid".to_string()));
    let longer = format!("\r\n{}", req);
    assert_eq!(retrieve_session(&longer), Err("Request too long".to_string()));
}

#[test]
fn session_cookie_format_errors() {
    assert_eq!(
        retrieve_session(&"Cookie: session=abc".to_string()),
        Err("Error in cookie format".to_string())
    );
    assert_eq!(
        retrieve_session(&"Cookie: a=b=c=d".to_string()),
        Err("Error in cookie format".to_string())
    );
    let hex = to_hex(&token(1));
    assert_eq!(
        retrieve_session(&format!("Cookie: session={}; username=", hex)),
        Err("Cookie format is not valid".to_string())
    );
    assert_eq!(
        retrieve_session(&"Cookie: session=abcd; username=bob".to_string()),
        Err("Cookie format is not valid".to_string())
    );
}

#[test]
fn session_uses_the_first_cookie_line() {
    let hex = to_hex(&token(2));
    let req = format!("Cookie: session={}; username=ann\r\nCookie: session=zz; username=bob", hex);
    assert_eq!(retrieve_session(&req), Ok((hex, "ann".to_string())));
}

#[test]
fn session_token_is_measured_in_bytes() {
    let token = format!("{}é", "a".repeat(62));
    assert_eq!(token.len(), 64);
    assert_eq!(
        retrieve_session(&format!("Cookie: session={}; username=bob", token)),
        Ok((token, "bob".to_string()))
    );
}

#[test]
fn store_opens_and_closes_sessions() {
    let mut s = SessionStore::new();
    let a = token(1);
    let b = token(2);
    assert!(!s.contains(&a));
    assert!(s.insert(a));
    assert!(!s.insert(a));
    assert!(s.insert(b));
    assert!(s.contains(&a) && s.contains(&b));
    assert!(s.remove(&a));
    assert!(!s.remove(&a));
    assert!(!s.contains(&a));
    assert!(s.contains(&b));
    assert_eq!(s.tokens(), vec![b]);
}

#[test]
fn saved_sessions_load_back() {
    let mut s = SessionStore::new();
    for seed in [3u8, 4, 5] {
        s.insert(token(seed));
    }
    s.insert(token(4));
    let lines = saved_lines(&s);
    assert_eq!(lines.len(), 3);
    for i in 0..lines.len() {
        for j in i + 1..lines.len() {
            assert_ne!(lines[i], lines[j]);
        }
    }
    let loaded = load_sessions(&lines).unwrap();
    for seed in [3u8, 4, 5] {
        assert!(loaded.contains(&token(seed)));
    }
    assert!(!loaded.contains(&token(6)));
    assert_eq!(loaded.tokens().len(), 3);
}

#[test]
fn loading_fails_on_a_line_without_token() {
    let lines = vec![to_hex(&token(1)), "not a token".to_string()];
    assert!(load_sessions(&lines).is_none());
    assert!(load_sessions(&Vec::new()).unwrap().tokens().is_empty());
}
