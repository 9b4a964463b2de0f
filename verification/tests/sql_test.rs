use trusty::errors::Errors;
use trusty::errors::SecurityError;
use trusty::sql::get_key_val_insert_sql;
use trusty::sql::get_key_val_select_sql;
use trusty::sql::get_key_val_update_sql;
use trusty::sql::add_note;
use trusty::sql::get_last_touched_note;
use trusty::sql::get_note_by_id;
use trusty::sql::update_last_touched;
use trusty::sql::AttrStore;
use trusty::sql::NoteStore;

/// A store pair as a fresh install leaves it: the last-touched pointer at 0
/// and one welcome note.
fn seeded_stores() -> (NoteStore, AttrStore) {
    let mut notes = NoteStore::new();
    let mut attrs = AttrStore::new();
    assert!(attrs.add_key_value("last_touched", "0"));
    let id = notes
        .insert_note(
            &mut attrs,
            "Get Started with cRusty",
            "Welcome to cRusty the CLI notes app. -Ron",
            false,
        )
        .unwrap();
    assert_eq!(id, 1);
    assert!(attrs.update_key_value("last_touched", "0"));
    (notes, attrs)
}

#[test]
fn test_get_key_val_insert_sql() {
    let sql = get_key_val_insert_sql("app");
    assert_eq!("INSERT INTO app (key, value) VALUES (:key, :value);", sql);
}

#[test]
fn test_get_key_val_select_sql() {
    let sql = get_key_val_select_sql("app");
    assert_eq!("SELECT value from app WHERE key = :key;", sql);
}

#[test]
fn test_get_key_val_update_sql() {
    let sql = get_key_val_update_sql("app");
    assert_eq!("UPDATE app SET value = :value WHERE key = :key;", sql)
}

#[test]
fn test_add_note() {
    let (mut notes, mut attrs) = seeded_stores();
    let title = "foo";
    let body = "bar";
    add_note(&mut notes, &mut attrs, "", title, body, false).unwrap();
    let note = get_note_by_id(&notes, &mut attrs, "", 2).unwrap();
    assert_eq!(note.title, title);
    assert_eq!(note.body, body);
}

#[test]
fn test_update_last_touched() {
    let (mut notes, mut attrs) = seeded_stores();
    let title = "foo";
    add_note(&mut notes, &mut attrs, "", title, "bar", false).unwrap();
    let note_1 = get_last_touched_note(&notes, &attrs, "").unwrap();
    assert_eq!(note_1.title, title);
    update_last_touched(&mut attrs, "1").unwrap();
    let note_2 = get_last_touched_note(&notes, &attrs, "").unwrap();
    assert_ne!(note_2.title, title);
}

#[test]
fn test_update_last_touched_malformed() {
    let (_notes, mut attrs) = seeded_stores();
    assert_eq!(
        update_last_touched(&mut attrs, "abc"),
        Err(Errors::NoteIdMalformedErr)
    );
    assert_eq!(
        update_last_touched(&mut attrs, "2147483648"),
        Err(Errors::NoteIdMalformedErr)
    );
    assert_eq!(update_last_touched(&mut attrs, "2147483647"), Ok(true));
}

#[test]
fn test_update_note_functions() {
    let (mut notes, mut attrs) = seeded_stores();
    let note = get_note_by_id(&notes, &mut attrs, "", 1).unwrap();
    let text = "foobar";
    assert!(notes.update_note_by_note_id(1, text));
    let note_2 = get_note_by_id(&notes, &mut attrs, "", 1).unwrap();
    assert_eq!(note_2.body, text);
    assert_eq!(note_2.content_id, note.content_id);
    let text_2 = "barbaz";
    assert!(notes.update_note_by_content_id(&note_2.content_id, text_2));
    let note_3 = get_note_by_id(&notes, &mut attrs, "", 1).unwrap();
    assert_eq!(note_3.body, text_2);
    let text_3 = "foo title";
    assert!(notes.update_title_by_content_id(&note_3.content_id, text_3));
    let note_4 = get_note_by_id(&notes, &mut attrs, "", 1).unwrap();
    assert_eq!(note_4.title, text_3);
}

#[test]
fn test_delete_note() {
    let (mut notes, mut attrs) = seeded_stores();
    assert!(notes.delete_note_by_id(1, true));
    assert!(notes.read_fields(1).is_none());
    add_note(&mut notes, &mut attrs, "", "foo", "bar", false).unwrap();
    assert!(notes.read_fields(2).is_some());
}

#[test]
fn test_trash_feature() {
    let (mut notes, mut attrs) = seeded_stores();
    assert!(notes.set_note_trash(1, true));
    assert!(notes.empty_trash());
    add_note(&mut notes, &mut attrs, "", "foo", "bar", false).unwrap();
    assert!(!notes.empty_trash());
    add_note(&mut notes, &mut attrs, "", "foo", "bar", false).unwrap();
    assert!(notes.trash_note(3));
    assert!(notes.restore_note(3));
    assert!(notes.delete_note_by_id(3, false));
}

#[test]
fn test_attr_functions() {
    let (_notes, mut attrs) = seeded_stores();
    let value = attrs.get_value("last_touched").unwrap();
    assert_eq!(value, "0");
    let key_2 = "foo";
    let val_2 = "42";
    assert!(attrs.add_key_value(key_2, val_2));
    let value_2 = attrs.get_value(key_2).unwrap();
    assert_eq!(value_2, val_2);
    let updated_val = "99";
    assert!(attrs.update_key_value(key_2, updated_val));
    let updated_value = attrs.get_value(key_2).unwrap();
    assert_eq!(updated_value, updated_val);
}

#[test]
fn test_update_protected_flag() {
    let (mut notes, _attrs) = seeded_stores();
    assert!(notes.update_protected_flag(1, true));
}

#[test]
fn test_get_note_by_id_missing() {
    let (notes, mut attrs) = seeded_stores();
    assert!(matches!(
        get_note_by_id(&notes, &mut attrs, "", 9),
        Err(SecurityError::NoteNotFound)
    ));
}

#[test]
fn test_delete_protected_needs_force() {
    let (mut notes, _attrs) = seeded_stores();
    assert!(notes.update_protected_flag(1, true));
    assert!(!notes.delete_note_by_id(1, false));
    assert!(notes.read_fields(1).is_some());
    assert!(notes.delete_note_by_id(1, true));
    assert!(notes.read_fields(1).is_none());
}

#[test]
fn test_get_note_from_menu_line_by_id() {
    let (notes, mut attrs) = seeded_stores();
    let test_line = "        1 | 2024-07-01 22:56:27 | Get Started with cRusty";
    let note = trusty::sql::get_note_from_menu_line_by_id(&notes, &mut attrs, "", test_line).unwrap();
    assert!(note.title.eq("Get Started with cRusty"));
    assert!(note.body.eq("Welcome to cRusty the CLI notes app. -Ron"));
}

#[test]
fn test_parse_menu_line_id() {
    assert_eq!(trusty::sql::parse_menu_line_id("        1 | date | title"), Some(1));
    assert_eq!(trusty::sql::parse_menu_line_id("      427 | date | title"), Some(427));
    assert_eq!(trusty::sql::parse_menu_line_id("   nonsense line"), None);
    assert_eq!(trusty::sql::parse_menu_line_id("short"), None);
}

#[test]
fn test_exit_codes() {
    assert_eq!(Errors::NoteIdErr.exit_code(), 504);
    assert_eq!(Errors::SetPasswordErr.exit_code(), 512);
    assert_eq!(Errors::KeyValUpdateErr.exit_code(), 516);
}
