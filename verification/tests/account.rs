use epeletii::account::{
    check_new_password, check_password, hash_password, check_reset_token, new_claims, normalize_email, reset_deadline, validate_signup,
};

#[test]
fn emails_are_trimmed_and_lowercased() {
    assert_eq!(normalize_email("  Ada@Example.ORG \n"), "ada@example.org");
}

#[test]
fn signup_checks_in_order() {
    assert_eq!(validate_signup(" nobody ", "secret", "Ada").err(), Some("Invalid email".to_string()));
    assert_eq!(validate_signup("ada@x.org", "12345", "Ada").err(), Some("Password must be at least 6 characters".to_string()));
    assert_eq!(validate_signup("ada@x.org", "123456", "   ").err(), Some("Display name cannot be empty".to_string()));
    let user = validate_signup(" Ada@X.org ", "123456", "  Ada Lovelace ").unwrap();
    assert_eq!(user.email, "ada@x.org");
    assert_eq!(user.display_name, "Ada Lovelace");
}

#[test]
fn passwords_are_checked_by_bcrypt() {
    let hash = bcrypt::hash("correct horse", 4).unwrap();
    assert_eq!(check_password("correct horse", &hash), Ok(()));
    assert_eq!(check_password("wrong horse", &hash), Err("Invalid email or password".to_string()));
    assert_eq!(check_password("correct horse", "not a hash"), Err("Invalid email or password".to_string()));
}

#[test]
fn reset_tokens_are_checked() {
    let stored = Some("tok-123".to_string());
    assert_eq!(check_new_password("short"), Err("Password must be at least 6 characters".to_string()));
    assert_eq!(check_new_password("long enough"), Ok(()));
    assert_eq!(check_reset_token(&None, Some(10), "tok-123", 5), Err("No reset request pending".to_string()));
    assert_eq!(check_reset_token(&stored, None, "tok-123", 5), Err("No reset request pending".to_string()));
    assert_eq!(check_reset_token(&stored, Some(10), "tok-999", 5), Err("Invalid reset token".to_string()));
    assert_eq!(check_reset_token(&stored, Some(10), " tok-123 ", 11), Err("Reset token has expired".to_string()));
    assert_eq!(check_reset_token(&stored, Some(10), " tok-123 ", 10), Ok(()));
    assert_eq!(reset_deadline(1000), 4600);
}

#[test]
fn session_claims_last_a_week() {
    let claims = new_claims("ada@x.org", "Ada", 1_000);
    assert_eq!(claims.sub, "ada@x.org");
    assert_eq!(claims.name, "Ada");
    assert_eq!(claims.iat, 1_000);
    assert_eq!(claims.exp, 1_000 + 7 * 86_400);
}

#[test]
fn a_hashed_password_signs_in() {
    let hash = hash_password("correct horse").unwrap();
    assert_ne!(hash, "correct horse");
    assert_eq!(check_password("correct horse", &hash), Ok(()));
    assert_eq!(check_password("wrong horse", &hash), Err("Invalid email or password".to_string()));
}
