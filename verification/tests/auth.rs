use acme_dns_rust::auth::{
    correct_password, dummy_verify, generate_password, is_valid_acme_token, password_from,
    CHARSET_LEN, GENERATED_LEN, HASH_COST, MIN_PASSWORD_LEN,
};

#[test]
fn test_generate_password_length() {
    let pwd = generate_password(40);
    assert_eq!(pwd.len(), 40);
}

#[test]
fn test_generate_password_charset() {
    let pwd = generate_password(100);
    assert!(pwd.chars().all(|c| c.is_ascii_alphanumeric() || c == '-' || c == '_'));
}

#[test]
fn test_generate_password_min_len_constant() {
    assert_eq!(MIN_PASSWORD_LEN, 12);
}

#[test]
fn test_correct_password_valid() {
    let hash = bcrypt::hash("correct_password", 4).unwrap();
    assert!(correct_password("correct_password", &hash));
}

#[test]
fn test_correct_password_wrong() {
    let hash = bcrypt::hash("correct_password", 4).unwrap();
    assert!(!correct_password("wrong_password", &hash));
}

#[test]
fn test_correct_password_invalid_hash() {
    assert!(!correct_password("any_password", "not_a_bcrypt_hash"));
}

#[test]
fn test_is_valid_acme_token_valid() {
    let token43: String = "A".repeat(43);
    assert!(is_valid_acme_token(&token43));
}

#[test]
fn test_is_valid_acme_token_too_short() {
    assert!(!is_valid_acme_token("short"));
}

#[test]
fn test_is_valid_acme_token_too_long() {
    let token = "A".repeat(44);
    assert!(!is_valid_acme_token(&token));
}

#[test]
fn test_is_valid_acme_token_invalid_chars() {
    let token = format!("{}{}", "A".repeat(42), "!");
    assert!(!is_valid_acme_token(&token));
}

#[test]
fn test_is_valid_acme_token_with_dash_underscore() {
    let token = format!("{}-{}_{}", "A".repeat(21), "B".repeat(10), "C".repeat(10));
    assert_eq!(token.len(), 43);
    assert!(is_valid_acme_token(&token));
}

#[test]
fn test_dummy_verify_does_not_panic() {
    dummy_verify();
}

#[test]
fn the_characters_of_passwords_are_numbered_in_order() {
    let all: Vec<usize> = (0..CHARSET_LEN).collect();
    assert_eq!(
        password_from(&all),
        "ABCDEFGHIJKLMNOPQRSTUVWXYZabcdefghijklmnopqrstuvwxyz1234567890-_"
    );
    assert_eq!(password_from(&Vec::new()), "");
}

#[test]
fn generated_passwords_differ() {
    assert_ne!(generate_password(GENERATED_LEN), generate_password(GENERATED_LEN));
    assert_eq!(generate_password(0), "");
}

#[test]
fn a_token_counts_characters_of_the_alphabet_only() {
    assert!(!is_valid_acme_token(&"é".repeat(43)));
    assert!(!is_valid_acme_token(""));
    assert!(is_valid_acme_token("abcdefghijklmnopqrstuvwxyzABCDEFGHIJKLMNOPQ"));
    assert!(is_valid_acme_token("0123456789-_0123456789-_0123456789-_0123456"));
}

#[test]
fn a_dummy_check_takes_about_as_long_as_a_real_one() {
    let hash = bcrypt::hash("some_password", HASH_COST).unwrap();
    let start = std::time::Instant::now();
    for _ in 0..3 {
        correct_password("another_password", &hash);
    }
    let real = start.elapsed();
    let start = std::time::Instant::now();
    for _ in 0..3 {
        dummy_verify();
    }
    let dummy = start.elapsed();
    assert!(dummy * 4 > real, "{:?} against {:?}", dummy, real);
}
