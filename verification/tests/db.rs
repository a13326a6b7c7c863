use http_server::db::{add_user, append_failure, do_the_req, incr_tokens, verify_credentials, verify_tokens};

fn s(x: &str) -> String {
    x.to_string()
}

fn record(u: &str, p: &str, e: &str) -> String {
    add_user(&s(u), &s(p), &s(e), &Vec::new(), false).unwrap()
}

#[test]
fn new_account_line_is_padded() {
    let line = record("bob", "secret12", "bob@mail.com");
    assert_eq!(line, "bob         ,secret12       ,bob@mail.com        ,0000000000,0000000001");
    assert_eq!(line.len(), 71);
    assert_eq!(line.split(',').count(), 5);
}

#[test]
fn new_account_refused_by_the_credential_rules() {
    assert_eq!(
        add_user(&s("bob"), &s("short"), &s("bob@mail.com"), &Vec::new(), false),
        Err(s("Password must be equal to at least 8 chars"))
    );
}

#[test]
fn new_account_refused_when_a_line_starts_with_the_name() {
    let lines = vec![record("bobby", "secret12", "b@m.co")];
    assert_eq!(
        add_user(&s("bob"), &s("secret12"), &s("bob@mail.com"), &lines, false),
        Err(s("Username already taken"))
    );
    assert!(add_user(&s("bobb"), &s("secret12"), &s("bob@mail.com"), &lines, true).is_err());
    assert_eq!(
        add_user(&s("ann"), &s("secret12"), &s("ann@mail.com"), &lines, true),
        Err(s("failed to read from 'db.txt'"))
    );
    assert!(add_user(&s("ann"), &s("secret12"), &s("ann@mail.com"), &lines, false).is_ok());
    assert_eq!(append_failure(), "Error appending to db.txt");
}

#[test]
fn sign_in_after_sign_up() {
    let lines = vec![record("ann", "password1", "a@b.co"), record("bob", "secret12", "bob@mail.com")];
    let user = format!("{:<12}", "bob");
    let pass = format!("{:<15}", "secret12");
    assert_eq!(verify_credentials(&user, &pass, &lines, false), Some(Ok(())));
    assert_eq!(
        verify_credentials(&user, &format!("{:<15}", "wrong123"), &lines, false),
        Some(Err(s("Credentials not valid")))
    );
    assert_eq!(verify_credentials(&s("bob"), &s("secret12"), &lines, false), Some(Err(s("Credentials not valid"))));
    assert_eq!(
        verify_credentials(&user, &format!("{:<15}", "wrong123"), &lines, true),
        Some(Err(s("Error")))
    );
}

#[test]
fn sign_in_reports_a_malformed_line() {
    let lines = vec![record("ann", "password1", "a@b.co"), s("broken,line")];
    assert_eq!(
        verify_credentials(&s("x"), &s("y"), &lines, false),
        Some(Err(s("Error in 'db.txt' at line 1")))
    );
}

#[test]
fn sign_in_scan_stops_before_the_counter_overflows() {
    let mut lines = Vec::new();
    for _ in 0..256 {
        lines.push(s("a,b,c,d,e"));
    }
    assert_eq!(verify_credentials(&s("x"), &s("y"), &lines, false), None);
    lines.truncate(255);
    assert_eq!(verify_credentials(&s("x"), &s("y"), &lines, false), Some(Err(s("Credentials not valid"))));
    lines.push(s("x,y,c,d,e"));
    assert_eq!(verify_credentials(&s("x"), &s("y"), &lines, false), Some(Ok(())));
}

#[test]
fn new_account_has_one_request() {
    let lines = vec![record("ann", "password1", "a@b.co"), record("bob", "secret12", "bob@mail.com")];
    let q = verify_tokens(&s("bob"), &lines, false).unwrap().unwrap();
    assert_eq!(
        q,
        (
            1,
            s("bob         ,secret12       ,bob@mail.com        "),
            s("0000000000"),
            s("0000000001")
        )
    );
    let (offset, line) = incr_tokens(q, 100).unwrap().unwrap();
    assert_eq!(offset, 72);
    assert_eq!(line, "bob         ,secret12       ,bob@mail.com        ,0000000100,0000000001");
    let spent = vec![line];
    assert_eq!(verify_tokens(&s("bob"), &spent, false), Some(Err(s("Not enough tokens"))));
}

#[test]
fn request_plans_the_write() {
    let lines = vec![record("bob", "secret12", "bob@mail.com")];
    assert_eq!(
        do_the_req(&s("bob"), &lines, false),
        Some(Ok((0, s("bob         ,secret12       ,bob@mail.com        ,0000000100,0000000001"))))
    );
    assert_eq!(do_the_req(&s("zed"), &lines, false), Some(Err(s("Could not locate the username"))));
    assert_eq!(do_the_req(&s("zed"), &lines, true), Some(Err(s("Eror reading 'databases/db.txt'"))));
    assert_eq!(do_the_req(&s("thirteen_char"), &lines, false), None);
}

#[test]
fn quota_line_errors() {
    let lines = vec![s("bob         ,x,y"), s("ann         ,p,e,1x,5"), s("cat         ,p,e,1,+5x")];
    assert_eq!(
        verify_tokens(&s("bob"), &lines, false),
        Some(Err(s("Error in 'databases/db.txt' at line 0")))
    );
    assert_eq!(
        verify_tokens(&s("ann"), &lines, false),
        Some(Err(s("Error while parsing current tokens for user: ann         ")))
    );
    assert_eq!(
        verify_tokens(&s("cat"), &lines, false),
        Some(Err(s("Error while parsing max tokens for user: cat         ")))
    );
    let ok = vec![s("dan         ,p,e,+7,+20")];
    assert_eq!(verify_tokens(&s("dan"), &ok, false), Some(Ok((0, s("dan         ,p,e"), s("+7"), s("+20")))));
}

#[test]
fn token_update_formats_and_limits() {
    let q = (2usize, s("c"), s("+5"), s("9"));
    assert_eq!(incr_tokens(q, 100), Some(Ok((144, s("c,0000000105,9")))));
    assert_eq!(incr_tokens((0, s("c"), s("x"), s("9")), 1), Some(Err(s("Error parsing used tokens"))));
    assert_eq!(incr_tokens((0, s("c"), s("9999999999"), s("9")), 1), None);
    assert_eq!(incr_tokens((0, s("c"), s("18446744073709551615"), s("9")), 1), None);
    assert_eq!(incr_tokens((usize::MAX, s("c"), s("1"), s("9")), 1), None);
    assert_eq!(incr_tokens((0, s("c"), s("18446744073709551616"), s("9")), 1), Some(Err(s("Error parsing used tokens"))));
}

/// The database file as bytes: each line followed by a newline.
fn file_of(lines: &[String]) -> Vec<u8> {
    let mut f = Vec::new();
    for l in lines {
        f.extend_from_slice(l.as_bytes());
        f.push(b'\n');
    }
    f
}

#[test]
fn request_rewrites_the_users_line_in_place() {
    let lines = vec![
        record("ann", "password1", "a@b.co"),
        record("bob", "secret12", "bob@mail.com"),
        record("cat", "pass-word", "c@d.org"),
    ];
    let mut file = file_of(&lines);
    assert_eq!(file.len(), 3 * 72);
    let (offset, line) = do_the_req(&s("bob"), &lines, false).unwrap().unwrap();
    let at = offset as usize;
    file[at..at + line.len()].copy_from_slice(line.as_bytes());
    let mut after = lines.clone();
    after[1] = line.clone();
    assert_eq!(file, file_of(&after));
    let reread: Vec<String> = String::from_utf8(file).unwrap().lines().map(|l| l.to_string()).collect();
    assert_eq!(reread, after);
    assert_eq!(reread[1], "bob         ,secret12       ,bob@mail.com        ,0000000100,0000000001");
    assert_eq!(do_the_req(&s("bob"), &reread, false), Some(Err(s("Not enough tokens"))));
    assert_eq!(
        do_the_req(&s("cat"), &reread, false),
        Some(Ok((144, s("cat         ,pass-word      ,c@d.org             ,0000000100,0000000001"))))
    );
}

#[test]
fn one_request_may_pass_the_quota_and_the_next_is_refused() {
    let lines = vec![
        record("ann", "password1", "a@b.co"),
        s("dan         ,secret12       ,dan@mail.com        ,0000000000,0000000150"),
        s("eve         ,secret12       ,eve@mail.com        ,0000000000,0000000250"),
    ];
    let (offset, line) = do_the_req(&s("dan"), &lines, false).unwrap().unwrap();
    assert_eq!(offset, 72);
    assert_eq!(line, "dan         ,secret12       ,dan@mail.com        ,0000000100,0000000150");
    let mut after = lines.clone();
    after[1] = line;
    let (_, line2) = do_the_req(&s("dan"), &after, false).unwrap().unwrap();
    assert_eq!(line2, "dan         ,secret12       ,dan@mail.com        ,0000000200,0000000150");
    after[1] = line2;
    assert_eq!(do_the_req(&s("dan"), &after, false), Some(Err(s("Not enough tokens"))));
    let (offset3, line3) = do_the_req(&s("eve"), &after, false).unwrap().unwrap();
    assert_eq!(offset3, 144);
    after[2] = line3;
    assert!(do_the_req(&s("eve"), &after, false).unwrap().is_ok());
}
