use arcade_guess::accounts::{
    authenticate, check_initials, normalize_initials, register, sign_in, InitialsCheck,
};
use arcade_guess::store::RecordStore;

#[test]
fn normalize_accepts_one_to_three_letters_in_any_case() {
    assert_eq!(normalize_initials("abc"), Some("ABC".to_string()));
    assert_eq!(normalize_initials("aB"), Some("AB".to_string()));
    assert_eq!(normalize_initials("z"), Some("Z".to_string()));
    assert_eq!(normalize_initials("  xyZ \n"), Some("XYZ".to_string()));
    assert_eq!(normalize_initials("QRS"), Some("QRS".to_string()));
}

#[test]
fn normalize_uses_unicode_uppercase() {
    assert_eq!(normalize_initials("ß"), Some("SS".to_string()));
    assert_eq!(normalize_initials("ı"), Some("I".to_string()));
    assert_eq!(normalize_initials("ſa"), Some("SA".to_string()));
    assert_eq!(normalize_initials("ﬀ"), Some("FF".to_string()));
    assert_eq!(normalize_initials("ßßa"), None);
    let users = RecordStore::new().load_users();
    assert!(matches!(check_initials(&users, "ß"), InitialsCheck::New(u) if u == "SS"));
}

#[test]
fn normalize_rejects_bad_initials() {
    assert_eq!(normalize_initials(""), None);
    assert_eq!(normalize_initials("   "), None);
    assert_eq!(normalize_initials("ABCD"), None);
    assert_eq!(normalize_initials("A1"), None);
    assert_eq!(normalize_initials("A B"), None);
    assert_eq!(normalize_initials("é"), None);
}

#[test]
fn register_then_authenticate() {
    let mut store = RecordStore::new();
    let ts = register(&mut store, "AAA", "secret\n");
    assert_eq!(store.users, vec!["AAA,secret".to_string()]);
    assert_eq!(store.logins, vec![format!("AAA,{}", ts)]);
    let users = store.load_users();
    assert!(authenticate(&users, "AAA", "secret"));
    assert!(!authenticate(&users, "AAA", "Secret"));
    let before = store.logins.len();
    assert!(sign_in(&mut store, &users, "AAA", "other").is_none());
    assert_eq!(store.logins.len(), before);
    assert_eq!(store.users.len(), 1);
    assert!(sign_in(&mut store, &users, "AAA", " secret ").is_some());
    assert_eq!(store.logins.len(), before + 1);
    assert!(store.logins[before].starts_with("AAA,"));
}

#[test]
fn register_with_empty_password() {
    let mut store = RecordStore::new();
    register(&mut store, "BB", "");
    assert_eq!(store.users, vec!["BB,".to_string()]);
    let users = store.load_users();
    assert!(authenticate(&users, "BB", ""));
    assert!(!authenticate(&users, "BB", "x"));
}

#[test]
fn users_log_end_to_end() {
    let mut store = RecordStore::new();
    store.append_user("AAA", "hunter2");
    let users = store.load_users();
    assert_eq!(users.lookup("AAA"), Some(&"hunter2".to_string()));
    assert!(authenticate(&users, "AAA", "hunter2"));
    assert!(!authenticate(&users, "AAA", "wrong"));
}

#[test]
fn check_initials_tells_existing_from_new() {
    let mut store = RecordStore::new();
    store.append_user("AAA", "pw");
    let users = store.load_users();
    assert!(matches!(check_initials(&users, "aaa"), InitialsCheck::Existing(u) if u == "AAA"));
    assert!(matches!(check_initials(&users, "bob"), InitialsCheck::New(u) if u == "BOB"));
    assert!(matches!(check_initials(&users, "b0b"), InitialsCheck::Invalid));
}

#[test]
fn unknown_initials_do_not_authenticate() {
    let users = RecordStore::new().load_users();
    assert!(!authenticate(&users, "ZZZ", ""));
}
