use waitlist::{
    check_user_name, decide_sign_in, normalize_email, true_value, CreateQueue, SignInError,
    SignUpError, UserDirectory, NAME_LENGTH_MESSAGE,
};

#[test]
fn name_length_bounds() {
    assert!(check_user_name("abcd").is_err());
    assert!(check_user_name("abcde").is_ok());
    assert!(check_user_name(&"x".repeat(35)).is_ok());
    assert_eq!(check_user_name(&"x".repeat(36)), Err(NAME_LENGTH_MESSAGE.to_string()));
    assert!(check_user_name("Иван Петров").is_ok());
    assert!(check_user_name("Ваня").is_err());
    assert!(check_user_name("").is_err());
}

#[test]
fn email_is_lowercased() {
    assert_eq!(normalize_email("John.Doe@Example.COM"), "john.doe@example.com");
    assert_eq!(normalize_email(""), "");
}

#[test]
fn sign_up_rules() {
    let mut users = UserDirectory::new();
    assert_eq!(users.register(1, "abc".to_string(), "a@b.c".to_string(), "h".to_string()), Err(SignUpError::BadName));
    assert_eq!(users.register(1, "Alice".to_string(), "alice@b.c".to_string(), "h1".to_string()), Ok(()));
    assert_eq!(users.register(2, "Alice2".to_string(), "alice@b.c".to_string(), "h2".to_string()), Err(SignUpError::EmailTaken));
    assert!(users.has_user_with_email(&"alice@b.c".to_string()));
    assert!(!users.has_user_with_email(&"Alice@B.c".to_string()));
    let u = users.user_by_email("ALICE@b.c").unwrap();
    assert_eq!(u.id, 1);
    assert_eq!(u.pwhash, "h1");
    assert_eq!(u.email, "alice@b.c");
    assert!(users.user_by_email("bob@b.c").is_none());
    let info = users.user_by_id(1).unwrap();
    assert_eq!(info.name, "Alice");
    assert!(users.user_by_id(2).is_none());
}

#[test]
fn organizer_defaults_on() {
    assert!(true_value());
    let req = CreateQueue { name: "n".to_string(), description: "d".to_string(), add_organizer: true_value() };
    assert!(req.add_organizer);
}

#[test]
fn sign_up_then_sign_in() {
    let mut users = UserDirectory::new();
    assert_eq!(users.sign_up("abc".to_string(), "x@y.z", "pw"), Err(SignUpError::BadName));
    let id = users.sign_up("Robert".to_string(), "Bob@Y.z", "secret").unwrap();
    assert_eq!(users.sign_up("Roberta".to_string(), "bob@y.Z", "other"), Err(SignUpError::EmailTaken));
    let stored = users.user_by_email("bob@y.z").unwrap();
    assert_eq!(stored.id, id);
    assert_ne!(stored.pwhash, "secret");
    assert_eq!(users.sign_in("BOB@y.z", "secret"), Ok(id));
    assert_eq!(users.sign_in("bob@y.z", "wrong"), Err(SignInError::IllegalLogin));
    assert_eq!(users.sign_in("nobody@y.z", "secret"), Err(SignInError::IllegalLogin));
}

#[test]
fn unreadable_hash_is_internal() {
    let mut users = UserDirectory::new();
    users.register(9, "Mallory".to_string(), "m@x.y".to_string(), "not a hash".to_string()).unwrap();
    assert_eq!(users.sign_in("m@x.y", "anything"), Err(SignInError::Internal));
}

#[test]
fn sign_in_decisions() {
    assert_eq!(decide_sign_in(7, Some(true)), Ok(7));
    assert_eq!(decide_sign_in(7, Some(false)), Err(SignInError::IllegalLogin));
    assert_eq!(decide_sign_in(7, None), Err(SignInError::Internal));
}
