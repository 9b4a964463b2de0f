use trusty::errors::SecurityError;
use trusty::security::check_password;
use trusty::security::decrypt_dump;
use trusty::security::decrypt_note;
use trusty::security::decrypt_text;
use trusty::security::encrypt_note;
use trusty::security::encrypt_text;
use trusty::security::get_boss_key;
use trusty::security::password_attempt_accepted;
use trusty::security::protect_note;
use trusty::security::recovery_reset_password;
use trusty::security::set_password;
use trusty::security::unprotect_note;
use trusty::security::validate_password;
use trusty::security::MAX_PASSWORD_ATTEMPTS;
use trusty::sql::insert_encrypted_note;
use trusty::sql::AttrStore;
use trusty::sql::NoteStore;
use trusty::sql::NoteView;

/// A fresh install with credentials established for `password`; hands back
/// the generated recovery code.
fn initialized_stores(password: &str) -> (NoteStore, AttrStore, String) {
    let notes = NoteStore::new();
    let mut attrs = AttrStore::new();
    assert!(attrs.add_key_value("last_touched", "0"));
    let recovery_code = set_password(&mut attrs, false, None, password).unwrap();
    (notes, attrs, recovery_code)
}

#[test]
fn test_validate_password() {
    assert!(validate_password("Foobar"));
    assert!(validate_password("Foob123"));
    assert!(!validate_password("Fo"));
    assert!(!validate_password("🛟🛟Foo"));
}

#[test]
fn test_encryption_functions() {
    let val_1 = "bar";
    let key_1 = "foobar";

    let encrypted_text = encrypt_text(key_1, val_1);

    assert_ne!(val_1, encrypted_text);

    let decrypted_text = decrypt_text(key_1, &encrypted_text).unwrap();

    assert_eq!(decrypted_text, val_1);
}

#[test]
fn test_encryption_roundtrip_empty() {
    let encrypted = encrypt_text("somekey", "");
    let decrypted = decrypt_text("somekey", &encrypted).unwrap();
    assert_eq!(decrypted, "");
}

#[test]
fn test_decrypt_wrong_key_fails() {
    let encrypted = encrypt_text("keyone", "some plain text");
    assert_eq!(
        decrypt_text("keytwo", &encrypted),
        Err(SecurityError::DecryptionFailure)
    );
    assert_eq!(
        decrypt_text("keyone", "not a ciphertext"),
        Err(SecurityError::DecryptionFailure)
    );
}

#[test]
fn test_password_gate_attempts() {
    assert_eq!(MAX_PASSWORD_ATTEMPTS, 2);
    assert!(password_attempt_accepted("Foobar", "Foobar", None));
    assert!(!password_attempt_accepted("Foobar", "Foobaz", None));
    assert!(!password_attempt_accepted("Fo", "Fo", None));
    let fingerprint = encrypt_text("Foobar", "Foobar");
    assert!(password_attempt_accepted("Foobar", "Foobar", Some(&fingerprint)));
    assert!(!password_attempt_accepted("Foobaz", "Foobaz", Some(&fingerprint)));
}

#[test]
fn test_check_password() {
    let fingerprint = encrypt_text("Secret1", "Secret1");
    assert!(check_password("Secret1", &fingerprint));
    assert!(!check_password("Secret2", &fingerprint));
}

#[test]
fn test_initialize_wrappings_agree() {
    let (_notes, attrs, recovery_code) = initialized_stores("Secret1");
    let wrapped = attrs.get_value("boss_key").unwrap();
    let via_password = get_boss_key("Secret1", &wrapped).unwrap();
    let recovery_wrapped = attrs.get_value("recovery_boss_key").unwrap();
    let via_recovery = decrypt_text(&recovery_code, &recovery_wrapped).unwrap();
    assert_eq!(via_password, via_recovery);
    let fingerprint = attrs.get_value("password").unwrap();
    assert!(check_password("Secret1", &fingerprint));
}

#[test]
fn test_initialize_twice_fails() {
    let (_notes, mut attrs, _recovery_code) = initialized_stores("Secret1");
    assert_eq!(
        set_password(&mut attrs, false, None, "Other12"),
        Err(SecurityError::AttributeWriteFailure)
    );
}

#[test]
fn test_rotation_keeps_boss_key() {
    let (_notes, mut attrs, recovery_code) = initialized_stores("Secret1");
    let boss_before = get_boss_key("Secret1", &attrs.get_value("boss_key").unwrap()).unwrap();

    let new_code = recovery_reset_password(&mut attrs, &recovery_code, "NewPass2").unwrap();
    assert_ne!(new_code, recovery_code);

    let boss_after = get_boss_key("NewPass2", &attrs.get_value("boss_key").unwrap()).unwrap();
    assert_eq!(boss_before, boss_after);

    // The old password no longer unwraps anything.
    assert!(get_boss_key("Secret1", &attrs.get_value("boss_key").unwrap()).is_err());

    // Recovery codes are single-use: the old one is rejected now.
    assert_eq!(
        recovery_reset_password(&mut attrs, &recovery_code, "Third33"),
        Err(SecurityError::InvalidRecoveryCode)
    );

    // The new one still works.
    let third_code = recovery_reset_password(&mut attrs, &new_code, "Third33").unwrap();
    let boss_third = get_boss_key("Third33", &attrs.get_value("boss_key").unwrap()).unwrap();
    assert_eq!(boss_before, boss_third);
    assert_ne!(third_code, new_code);
}

#[test]
fn test_invalid_recovery_code_changes_nothing() {
    let (_notes, mut attrs, _recovery_code) = initialized_stores("Secret1");
    let fingerprint_before = attrs.get_value("password").unwrap();
    assert_eq!(
        recovery_reset_password(&mut attrs, "wrong-code", "NewPass2"),
        Err(SecurityError::InvalidRecoveryCode)
    );
    assert_eq!(attrs.get_value("password").unwrap(), fingerprint_before);
}

#[test]
fn test_encrypt_decrypt_note_fields() {
    let (_notes, attrs, _rc) = initialized_stores("Secret1");
    let enc = encrypt_note(&attrs, "Secret1", "my title", "my body").unwrap();
    assert_ne!(enc.title, "my title");
    assert_ne!(enc.body, "my body");
    assert!(enc.protected);
    let dec = decrypt_note(&attrs, "Secret1", &enc.title, &enc.body).unwrap();
    assert_eq!(dec.title, "my title");
    assert_eq!(dec.body, "my body");
    assert!(matches!(
        encrypt_note(&attrs, "WrongPw1", "t", "b"),
        Err(SecurityError::AuthenticationExhausted)
    ));
}

#[test]
fn test_protect_and_unprotect_note() {
    let (mut notes, mut attrs, _rc) = initialized_stores("Secret1");
    let id = notes.insert_note(&mut attrs, "T", "B", false).unwrap();
    assert_eq!(id, 1);
    assert!(attrs.update_key_value("last_touched", "0"));

    protect_note(&mut attrs, &mut notes, "Secret1", 1).unwrap();
    let protected_view = notes.read_fields(1).unwrap();
    assert!(protected_view.protected);
    assert_ne!(protected_view.title, "T");
    assert_ne!(protected_view.body, "B");
    // Protecting touched the note, so the pointer moved to it.
    assert_eq!(attrs.get_value("last_touched").unwrap(), "1");

    unprotect_note(&mut attrs, &mut notes, "Secret1", 1).unwrap();
    let plain_view = notes.read_fields(1).unwrap();
    assert!(!plain_view.protected);
    assert_eq!(plain_view.title, "T");
    assert_eq!(plain_view.body, "B");
}

#[test]
fn test_protect_twice_is_a_noop() {
    let (mut notes, mut attrs, _rc) = initialized_stores("Secret1");
    notes.insert_note(&mut attrs, "T", "B", false).unwrap();

    protect_note(&mut attrs, &mut notes, "Secret1", 1).unwrap();
    let first = notes.read_fields(1).unwrap();

    assert_eq!(
        protect_note(&mut attrs, &mut notes, "Secret1", 1),
        Err(SecurityError::NoteAlreadyProtected)
    );
    let second = notes.read_fields(1).unwrap();
    assert_eq!(first.title, second.title);
    assert_eq!(first.body, second.body);
    assert!(second.protected);
}

#[test]
fn test_protect_error_paths() {
    let (mut notes, mut attrs, _rc) = initialized_stores("Secret1");
    notes.insert_note(&mut attrs, "T", "B", false).unwrap();

    assert_eq!(
        protect_note(&mut attrs, &mut notes, "Secret1", 9),
        Err(SecurityError::NoteNotFound)
    );
    assert_eq!(
        protect_note(&mut attrs, &mut notes, "WrongPw1", 1),
        Err(SecurityError::AuthenticationExhausted)
    );
    assert_eq!(
        unprotect_note(&mut attrs, &mut notes, "Secret1", 1),
        Err(SecurityError::NoteNotProtected)
    );
}

#[test]
fn test_insert_encrypted_note_roundtrip() {
    let (mut notes, mut attrs, _rc) = initialized_stores("Secret1");
    let id = insert_encrypted_note(&mut notes, &mut attrs, "Secret1", "My  Title", "my body")
        .unwrap()
        .unwrap();
    let stored = notes.read_fields(id).unwrap();
    assert!(stored.protected);
    assert_ne!(stored.body, "my body");

    unprotect_note(&mut attrs, &mut notes, "Secret1", id).unwrap();
    let plain = notes.read_fields(id).unwrap();
    assert_eq!(plain.title, "My  Title");
    assert_eq!(plain.body, "my body");
}

#[test]
fn test_decrypt_dump_batch() {
    let (_notes, attrs, _rc) = initialized_stores("Secret1");
    let enc_1 = encrypt_note(&attrs, "Secret1", "t1", "b1").unwrap();
    let enc_2 = encrypt_note(&attrs, "Secret1", "t2", "b2").unwrap();
    let batch = vec![
        NoteView {
            title: enc_1.title,
            body: enc_1.body,
            note_id: 1,
            content_id: "c1".to_string(),
            updated: "u1".to_string(),
            created: "d1".to_string(),
        },
        NoteView {
            title: enc_2.title,
            body: enc_2.body,
            note_id: 2,
            content_id: "c2".to_string(),
            updated: "u2".to_string(),
            created: "d2".to_string(),
        },
    ];
    let decrypted = decrypt_dump(&attrs, "Secret1", &batch).unwrap();
    assert_eq!(decrypted.len(), 2);
    assert_eq!(decrypted[0].title, "t1");
    assert_eq!(decrypted[0].body, "b1");
    assert_eq!(decrypted[1].title, "t2");
    assert_eq!(decrypted[1].body, "b2");
    assert_eq!(decrypted[0].content_id, "c1");
    assert_eq!(decrypted[1].updated, "u2");

    assert!(matches!(
        decrypt_dump(&attrs, "WrongPw1", &batch),
        Err(SecurityError::AuthenticationExhausted)
    ));
}

#[test]
fn test_full_recovery_scenario() {
    // Fresh store, password "Secret1", one protected note; then the password
    // is rotated through the recovery code and the note still opens.
    let (mut notes, mut attrs, recovery_code) = initialized_stores("Secret1");
    notes.insert_note(&mut attrs, "T", "B", false).unwrap();
    protect_note(&mut attrs, &mut notes, "Secret1", 1).unwrap();

    recovery_reset_password(&mut attrs, &recovery_code, "NewPass2").unwrap();

    unprotect_note(&mut attrs, &mut notes, "NewPass2", 1).unwrap();
    let plain = notes.read_fields(1).unwrap();
    assert_eq!(plain.title, "T");
    assert_eq!(plain.body, "B");
    assert!(!plain.protected);
}
