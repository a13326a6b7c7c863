use http_server::credentials::{
    legitimate_credentials, retrieve_sent_credentials, retrieve_sent_credentials_signin,
    validate_email_no_regex,
};

fn email(s: &str) -> Result<(), String> {
    validate_email_no_regex(&s.to_string())
}

fn creds(u: &str, p: &str, e: &str) -> Result<(), String> {
    legitimate_credentials(&u.to_string(), &p.to_string(), &e.to_string())
}

#[test]
fn email_accepts_a_plain_address() {
    assert_eq!(email("bob@mail.com"), Ok(()));
    assert_eq!(email("a.b-c_d@x.y.z"), Ok(()));
}

#[test]
fn email_refuses_more_than_20_bytes() {
    assert_eq!(email("abcdefghij@klmnop.com"), Err("Email is too long, 20 chars max".to_string()));
    assert_eq!(email("abcdefghi@klmnop.com"), Ok(()));
}

#[test]
fn email_refuses_characters_outside_the_allowed_set() {
    assert_eq!(email("bob!@mail.com"), Err("The email contains unauthorized characters".to_string()));
    assert_eq!(email("bób@mail.com"), Err("The email contains unauthorized characters".to_string()));
}

#[test]
fn email_refuses_bad_ends_and_bad_at() {
    let bad = Err("The is not well formatted".to_string());
    assert_eq!(email(".bob@mail.com"), bad);
    assert_eq!(email("bob@mail.com."), bad);
    assert_eq!(email("@bob.com"), bad);
    assert_eq!(email("bob@mail.com@"), bad);
    assert_eq!(email("bob@.com"), bad);
    assert_eq!(email("bob@@mail.com"), bad);
}

#[test]
fn email_needs_an_at() {
    assert_eq!(email("bobmail.com"), Err("'@' was not found in the email provided".to_string()));
}

#[test]
fn email_host_rules() {
    assert_eq!(email("a@b@c.com"), Err("Just one '@' is allowed in email".to_string()));
    assert_eq!(email("a@b..com"), Err("2 following dots can't be present in an email".to_string()));
    assert_eq!(email("a@bcom"), Err("No dots was found for the email host".to_string()));
    assert_eq!(email("a..b@bc.om"), Ok(()));
    assert_eq!(email("a@b.c..d@e"), Err("2 following dots can't be present in an email".to_string()));
    assert_eq!(email("a@b.c@d..e"), Err("Just one '@' is allowed in email".to_string()));
}

#[test]
fn credentials_check_the_email_first() {
    assert_eq!(creds("", "", "bobmail.com"), Err("'@' was not found in the email provided".to_string()));
}

#[test]
fn credentials_check_name_and_password_lengths() {
    let e = "bob@mail.com";
    assert_eq!(creds("", "secret12", e), Err("Username must be equal to at least 1 char".to_string()));
    assert_eq!(creds("abcdefghijklm", "secret12", e), Err("Username max len is 12 chars".to_string()));
    assert_eq!(creds("bob", "secret1", e), Err("Password must be equal to at least 8 chars".to_string()));
    assert_eq!(creds("bob", "secret1234567890", e), Err("Password max len is 15".to_string()));
    assert_eq!(creds("abcdefghijkl", "secret1234567!!", e), Ok(()));
}

#[test]
fn credentials_count_lengths_in_bytes() {
    assert_eq!(creds("ééééééé", "secret12", "bob@mail.com"), Err("Username max len is 12 chars".to_string()));
}

#[test]
fn credentials_refuse_spaces_non_ascii_and_commas() {
    let e = "bob@mail.com";
    let user_msg = Err(
        "Username should not contain any whitespace and must be ASCII only and should not contain ','"
            .to_string(),
    );
    let pass_msg = Err("Password should not contain any whitespace and must be ASCII only".to_string());
    assert_eq!(creds("bo b", "secret12", e), user_msg);
    assert_eq!(creds("bo,b", "secret12", e), user_msg);
    assert_eq!(creds("bé", "secret12", e), user_msg);
    assert_eq!(creds("bo\tb", "secret12", e), user_msg);
    assert_eq!(creds("bob", "secret 12", e), pass_msg);
    assert_eq!(creds("bob", "secret,12", e), pass_msg);
    assert_eq!(creds("bob", "secret\x0b12", e), pass_msg);
}

#[test]
fn credentials_need_three_counted_password_characters() {
    let e = "bob@mail.com";
    let weak = Err("Password must countain letters, numbers and special characters".to_string());
    assert_eq!(creds("bob", "........", e), weak);
    assert_eq!(creds("bob", "a.b.....", e), weak);
    assert_eq!(creds("bob", "a.b.c...", e), Ok(()));
    assert_eq!(creds("bob", "abcdefgh", e), Ok(()));
    assert_eq!(creds("bob", "#/;=@1!~", e), weak);
    assert_eq!(creds("bob", "#/;=@1!%", e), Ok(()));
}

#[test]
fn sign_up_form_is_read_from_the_last_line() {
    let req = "POST /created_account HTTP/1.1\r\nHost: x\r\n\r\nusername=bob&password=se%21cret+1&email=bob%40mail.com"
        .to_string();
    assert_eq!(
        retrieve_sent_credentials(&req),
        Ok(("bob".to_string(), "se!cret 1".to_string(), "bob@mail.com".to_string()))
    );
}

#[test]
fn sign_up_form_needs_three_fields_of_two_parts() {
    let bad = Err("Bad request format".to_string());
    assert_eq!(retrieve_sent_credentials(&"x\r\n\r\nusername=bob&password=p".to_string()), bad);
    assert_eq!(retrieve_sent_credentials(&"x\r\n\r\nusername=bob&password=p=q&email=e".to_string()), bad);
    assert_eq!(retrieve_sent_credentials(&"x\r\n\r\nusername=bob&password&email=e".to_string()), bad);
    assert_eq!(
        retrieve_sent_credentials(&"username=&password=&email=".to_string()),
        Ok((String::new(), String::new(), String::new()))
    );
}

#[test]
fn sign_in_form_is_read_from_the_last_line() {
    let req = "POST /connected HTTP/1.1\r\nCookie: a=b\r\n\r\nusername=bob&password=secret12".to_string();
    assert_eq!(
        retrieve_sent_credentials_signin(&req),
        Ok(("bob".to_string(), "secret12".to_string()))
    );
    assert_eq!(
        retrieve_sent_credentials_signin(&"username=bob".to_string()),
        Err("Bad request format".to_string())
    );
    assert_eq!(
        retrieve_sent_credentials_signin(&"username=bob%26password=x".to_string()),
        Ok(("bob".to_string(), "x".to_string()))
    );
}
