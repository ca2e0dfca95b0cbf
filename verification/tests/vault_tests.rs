use arke_core::error::ArkeError;
use arke_core::vault::Vault;

#[test]
fn test_create_vault() {
    let vault = Vault::open(String::from("vault-root"), true);
    assert!(vault.is_ok());
}

#[test]
fn test_write_and_read_note() {
    let mut vault = Vault::open(String::from("vault-root"), true).unwrap();
    let path = "test.md";
    let content = "# Test Note\n\nThis is a test.";

    vault.write_note(path, content);
    let note = vault.read_note(path, content.to_string(), None);

    assert_eq!(note.content, content);
}

#[test]
fn test_list_files() {
    let mut vault = Vault::open(String::from("vault-root"), true).unwrap();

    vault.write_note("note1.md", "content");
    vault.write_note("note2.md", "content");

    let entries = vec![String::from("note1.md"), String::from("note2.md")];
    let files = vault.list_files(&entries);
    assert_eq!(files.len(), 2);
}

#[test]
fn test_open_missing_root_fails() {
    let vault = Vault::open(String::from("gone"), false);
    match vault {
        Err(ArkeError::Vault(msg)) => {
            assert_eq!(msg, "Vault path does not exist: gone");
        }
        _ => panic!("expected a vault error"),
    }
}

#[test]
fn test_open_derives_vault_name() {
    let vault = Vault::open(String::from("home/notes/personal"), true).unwrap();
    assert_eq!(vault.config().name, "personal");
    assert_eq!(vault.config().path, "home/notes/personal");
    assert!(!vault.config().watch);

    let vault = Vault::open(String::from("trailing/dir/"), true).unwrap();
    assert_eq!(vault.config().name, "dir");

    let vault = Vault::open(String::from(""), true).unwrap();
    assert_eq!(vault.config().name, "Untitled");
}

#[test]
fn test_list_files_prunes_and_filters() {
    let vault = Vault::open(String::from("root"), true).unwrap();
    let entries = vec![
        String::from("keep.md"),
        String::from("sub/also.md"),
        String::from("not-a-note.txt"),
        String::from(".hidden/secret.md"),
        String::from("node_modules/dep/readme.md"),
        String::from("ok/.hidden-file.md"),
    ];

    // Hidden directories and node_modules are pruned; a hidden file is
    // not a directory and stays.
    let files = vault.list_files(&entries);
    assert_eq!(
        files,
        vec![
            String::from("keep.md"),
            String::from("sub/also.md"),
            String::from("ok/.hidden-file.md"),
        ]
    );
}

#[test]
fn test_write_then_get_note_round_trip() {
    let mut vault = Vault::open(String::from("root"), true).unwrap();
    vault.write_note("dir/note.md", "exact content");

    let note = vault.get_note("dir/note.md").unwrap();
    assert_eq!(note.content, "exact content");
    assert_eq!(note.path, "dir/note.md");
    assert!(note.metadata.is_empty());
    assert_eq!(note.modified, None);
}

#[test]
fn test_delete_note_evicts_cache() {
    let mut vault = Vault::open(String::from("root"), true).unwrap();
    vault.write_note("a.md", "x");
    vault.delete_note("a.md");
    assert!(vault.get_note("a.md").is_none());
}

#[test]
fn test_rename_note_moves_cache_entry() {
    let mut vault = Vault::open(String::from("root"), true).unwrap();
    vault.write_note("old.md", "content");
    vault.rename_note("old.md", "new.md");

    assert!(vault.get_note("old.md").is_none());
    let note = vault.get_note("new.md").unwrap();
    assert_eq!(note.path, "new.md");
    assert_eq!(note.content, "content");

    // A rename without a cache entry does not populate the cache.
    vault.rename_note("absent.md", "other.md");
    assert!(vault.get_note("other.md").is_none());
}

#[test]
fn test_read_note_overwrites_cache_entry() {
    let mut vault = Vault::open(String::from("root"), true).unwrap();
    vault.write_note("a.md", "stale");
    let note = vault.read_note("a.md", String::from("fresh"), Some(1700000000));
    assert_eq!(note.content, "fresh");
    assert_eq!(note.modified, Some(1700000000));

    let cached = vault.get_note("a.md").unwrap();
    assert_eq!(cached.content, "fresh");
}
