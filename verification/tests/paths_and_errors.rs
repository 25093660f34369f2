use opening_book::order::{str_eq_exec, str_lt_exec};
use opening_book::paths::{
    autosave_file_path, config_file_path, get_user_engine_directory, opening_book_db_path,
};
use opening_book::types::BookError;

#[test]
fn engine_directory_is_fixed() {
    assert_eq!(get_user_engine_directory(), "/storage/emulated/0/jieqibox/engines");
}

#[test]
fn android_paths_live_under_the_bundle_data_directory() {
    assert_eq!(
        config_file_path(true, "com.example.jieqi"),
        "/data/data/com.example.jieqi/files/config.ini"
    );
    assert_eq!(
        autosave_file_path(true, "com.example.jieqi"),
        "/data/data/com.example.jieqi/files/Autosave.json"
    );
    assert_eq!(
        opening_book_db_path(true, "com.example.jieqi"),
        "/data/data/com.example.jieqi/files/jieqi_openings.jb"
    );
}

#[test]
fn desktop_paths_are_bare_file_names() {
    assert_eq!(config_file_path(false, "ignored"), "config.ini");
    assert_eq!(autosave_file_path(false, "ignored"), "Autosave.json");
    assert_eq!(opening_book_db_path(false, "ignored"), "jieqi_openings.jb");
}

#[test]
fn error_messages_name_their_cause() {
    assert_eq!(
        BookError::ValidationError.message(),
        "position key and move notation must be non-empty"
    );
    assert_eq!(BookError::CorruptDatabase.message(), "database file is corrupt");
    assert_eq!(
        BookError::IoError.message(),
        "failed to read or write the database file"
    );
}

#[test]
fn lexicographic_order_of_keys() {
    assert!(str_lt_exec("alpha", "beta"));
    assert!(!str_lt_exec("beta", "alpha"));
    assert!(str_lt_exec("abc", "abcd"));
    assert!(!str_lt_exec("abcd", "abc"));
    assert!(!str_lt_exec("same", "same"));
    assert!(str_eq_exec("same", "same"));
    assert!(!str_eq_exec("same", "samé"));
    assert!(str_lt_exec("", "a"));
    assert!(!str_lt_exec("a", ""));
}
