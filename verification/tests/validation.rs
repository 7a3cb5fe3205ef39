use session_guard::validate::{
    check_email, check_length, ChangePasswordData, CreateAccountData, CreatePost,
    DeleteAccountBody, FieldError, ListParams, ValidationErrorJsonPayload,
};

#[test]
fn length_rule_counts_characters() {
    assert!(check_length("abc", 1, 3));
    assert!(check_length("a", 1, 3));
    assert!(!check_length("", 1, 3));
    assert!(!check_length("abcd", 1, 3));
    // characters, not bytes
    assert!(check_length("äöå", 3, 3));
}

#[test]
fn email_rule_requires_one_interior_at_sign() {
    assert!(check_email("user@example.com"));
    assert!(check_email("a@b"));
    assert!(!check_email("userexample.com"));
    assert!(!check_email("@example.com"));
    assert!(!check_email("user@"));
    assert!(!check_email("us@er@example.com"));
    assert!(!check_email(""));
    assert!(!check_email("@"));
}

#[test]
fn list_params_ranges_and_defaults() {
    assert!(ListParams { limit: None, offset: None }.validate());
    assert!(ListParams { limit: Some(0), offset: Some(0) }.validate());
    assert!(ListParams { limit: Some(50), offset: Some(1000) }.validate());
    assert!(!ListParams { limit: Some(51), offset: None }.validate());
    assert!(!ListParams { limit: Some(-1), offset: None }.validate());
    assert!(!ListParams { limit: None, offset: Some(1001) }.validate());

    let p = ListParams { limit: None, offset: None };
    assert_eq!(p.limit_or_default(), 10);
    assert_eq!(p.offset_or_default(), 0);
    let q = ListParams { limit: Some(25), offset: Some(40) };
    assert_eq!(q.limit_or_default(), 25);
    assert_eq!(q.offset_or_default(), 40);
}

#[test]
fn create_post_length_bounds() {
    assert!(CreatePost { text: "x".to_string() }.validate());
    assert!(CreatePost { text: "y".repeat(2000) }.validate());
    assert!(!CreatePost { text: String::new() }.validate());
    assert!(!CreatePost { text: "y".repeat(2001) }.validate());
}

#[test]
fn change_password_bounds() {
    let ok = ChangePasswordData {
        password: "p".to_string(),
        new_password: "12345678".to_string(),
    };
    assert!(ok.validate());
    let short_new = ChangePasswordData {
        password: "p".to_string(),
        new_password: "1234567".to_string(),
    };
    assert!(!short_new.validate());
    let long_old = ChangePasswordData {
        password: "p".repeat(73),
        new_password: "12345678".to_string(),
    };
    assert!(!long_old.validate());
    let at_cap = ChangePasswordData {
        password: "p".repeat(72),
        new_password: "n".repeat(72),
    };
    assert!(at_cap.validate());
}

#[test]
fn create_account_rules() {
    let ok = CreateAccountData {
        username: "someone".to_string(),
        password: "longenough".to_string(),
        email: "someone@example.com".to_string(),
    };
    assert!(ok.validate());

    let bad_email = CreateAccountData {
        username: "someone".to_string(),
        password: "longenough".to_string(),
        email: "someone.example.com".to_string(),
    };
    assert!(!bad_email.validate());

    let long_username = CreateAccountData {
        username: "u".repeat(33),
        password: "longenough".to_string(),
        email: "someone@example.com".to_string(),
    };
    assert!(!long_username.validate());

    let short_password = CreateAccountData {
        username: "someone".to_string(),
        password: "short".to_string(),
        email: "someone@example.com".to_string(),
    };
    assert!(!short_password.validate());
}

#[test]
fn delete_account_rule() {
    assert!(DeleteAccountBody { password: "p".to_string() }.validate());
    assert!(!DeleteAccountBody { password: String::new() }.validate());
    assert!(!DeleteAccountBody { password: "p".repeat(73) }.validate());
}

#[test]
fn validation_error_body_shape() {
    let fields = vec![FieldError {
        field: "email".to_string(),
        messages: vec!["email".to_string()],
    }];
    let payload = ValidationErrorJsonPayload::from_field_errors(fields);
    assert_eq!(payload.message, "Validation error");
    assert_eq!(payload.fields.len(), 1);
    assert_eq!(payload.fields[0].field, "email");
    assert_eq!(payload.fields[0].messages, vec!["email".to_string()]);
}
