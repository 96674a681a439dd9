use harmony::auth::{select_api_token, TokenManager, TOKEN_TTL_SECS};
use harmony::token::ApiToken;

#[test]
fn wrong_secret_gets_no_token() {
    let mut tm = TokenManager::new("s3cret");
    assert!(tm.issue("wrong", 0).is_none());
}

#[test]
fn issued_token_validates_immediately() {
    let mut tm = TokenManager::new("s3cret");
    let t = tm.issue("s3cret", 100).unwrap();
    assert!(tm.token_valid(&t, 100));
    assert!(tm.token_valid(&t, 100 + TOKEN_TTL_SECS));
}

#[test]
fn token_expires_after_ttl_and_is_removed() {
    let mut tm = TokenManager::new("s3cret");
    let t = tm.issue("s3cret", 0).unwrap();
    // Past the TTL, validation fails and evicts the token.
    assert!(!tm.token_valid(&t, TOKEN_TTL_SECS + 1));
    // A second attempt fails as well: the token is gone, even at a time
    // that would otherwise have been within its TTL.
    assert!(!tm.token_valid(&t, 1));
}

#[test]
fn refresh_extends_the_ttl() {
    let mut tm = TokenManager::new("s3cret");
    let t = tm.issue("s3cret", 0).unwrap();
    assert!(tm.token_valid(&t, 3000));
    // 3000 + TTL is within reach only because the last use was refreshed.
    assert!(tm.token_valid(&t, 3000 + TOKEN_TTL_SECS));
}

#[test]
fn unknown_token_is_refused() {
    let mut tm = TokenManager::new("s3cret");
    let stranger = ApiToken::from_string("NOBODYISSUEDTHISONE1");
    assert!(!tm.token_valid(&stranger, 0));
}

#[test]
fn new_tokens_have_fixed_length_and_alphabet() {
    let t = ApiToken::new();
    assert_eq!(t.as_str().len(), 20);
    for c in t.as_str().chars() {
        assert!(c.is_ascii_digit() || c.is_ascii_uppercase());
    }
}

#[test]
fn token_string_roundtrip() {
    let t = ApiToken::from_string("ABCDE");
    assert_eq!(t.as_str(), "ABCDE");
}

#[test]
fn token_source_precedence() {
    let c = Some("from-cookie".to_string());
    let h = Some("from-header".to_string());
    let q = Some("from-query".to_string());
    assert_eq!(select_api_token(c.clone(), h.clone(), q.clone()).as_deref(), Some("from-cookie"));
    assert_eq!(select_api_token(None, h.clone(), q.clone()).as_deref(), Some("from-header"));
    assert_eq!(select_api_token(None, None, q.clone()).as_deref(), Some("from-query"));
    assert_eq!(select_api_token(None, None, None), None);
}
