use http_server::codec::{decode_token, to_hex, url_decode};

fn token(seed: u8) -> [u8; 32] {
    let mut t = [0u8; 32];
    for i in 0..32 {
        t[i] = seed.wrapping_mul(31).wrapping_add((i as u8).wrapping_mul(7));
    }
    t
}

#[test]
fn to_hex_writes_two_lower_case_digits_per_byte() {
    assert_eq!(to_hex(&[0xbe, 0xef, 0x00, 0x0f, 0xa0]), "beef000fa0");
    assert_eq!(to_hex(&[]), "");
}

#[test]
fn to_hex_of_a_token_has_64_characters() {
    let hex = to_hex(&token(3));
    assert_eq!(hex.len(), 64);
    assert!(hex.chars().all(|c| c.is_ascii_digit() || ('a'..='f').contains(&c)));
}

#[test]
fn token_reads_back_from_its_hex() {
    for seed in [0u8, 1, 77, 255] {
        let t = token(seed);
        assert_eq!(decode_token(&to_hex(&t)), Some(t));
    }
}

#[test]
fn token_reads_upper_case_and_plus_sign() {
    let mut s = String::from("FF+a");
    s.push_str(&"00".repeat(30));
    let t = decode_token(&s).unwrap();
    assert_eq!(t[0], 0xff);
    assert_eq!(t[1], 0x0a);
    assert_eq!(t[2], 0);
}

#[test]
fn token_reads_only_its_first_64_characters() {
    let t = token(9);
    let mut s = to_hex(&t);
    s.push_str("zz trailing");
    assert_eq!(decode_token(&s), Some(t));
}

#[test]
fn token_refuses_short_or_non_hex_text() {
    assert_eq!(decode_token(&"ab".repeat(31)), None);
    let mut s = "ab".repeat(31);
    s.push_str("g0");
    assert_eq!(decode_token(&s), None);
    let mut s = "ab".repeat(31);
    s.push_str("0+");
    assert_eq!(decode_token(&s), None);
    assert_eq!(decode_token(&"é".repeat(64)), None);
}

#[test]
fn url_decode_turns_plus_into_space_and_reads_percent_pairs() {
    assert_eq!(url_decode(&"a+b%20c".to_string()), "a b c");
    assert_eq!(url_decode(&"%41%42%43".to_string()), "ABC");
    assert_eq!(url_decode(&"bob%40mail.com".to_string()), "bob@mail.com");
}

#[test]
fn url_decode_maps_a_byte_to_the_character_of_that_code() {
    assert_eq!(url_decode(&"%e9".to_string()), "\u{e9}");
    assert_eq!(url_decode(&"%+5".to_string()), "\u{5}");
}

#[test]
fn url_decode_keeps_a_percent_that_does_not_start_a_pair() {
    assert_eq!(url_decode(&"%zz!".to_string()), "%zz!");
    assert_eq!(url_decode(&"%4".to_string()), "%4");
    assert_eq!(url_decode(&"%".to_string()), "%");
    assert_eq!(url_decode(&"%%41".to_string()), "%%41");
    assert_eq!(url_decode(&"%4+x".to_string()), "%4+x");
}

#[test]
fn url_decode_leaves_plain_text_alone() {
    let s = "username=bob&password=x!y".to_string();
    assert_eq!(url_decode(&s), s);
    assert_eq!(url_decode(&String::new()), "");
}

#[test]
fn url_decode_never_lengthens() {
    for s in ["%41+", "++%", "%%%", "a%2", "%ZZ%41"] {
        assert!(url_decode(&s.to_string()).chars().count() <= s.chars().count());
    }
}
