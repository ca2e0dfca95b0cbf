use arke_core::index::SearchIndex;
use arke_core::VERSION;

#[test]
fn test_create_index() {
    let index = SearchIndex::new();
    assert!(index.is_ok());
}

#[test]
fn test_index_file() {
    let mut index = SearchIndex::new().unwrap();
    let path = String::from("test.md");

    index.index_file(path.clone(), "content").unwrap();

    let stats = index.stats();
    assert_eq!(stats.num_files, 1);
}

#[test]
fn test_remove_file() {
    let mut index = SearchIndex::new().unwrap();
    let path = String::from("test.md");

    index.index_file(path.clone(), "content").unwrap();
    index.remove_file(&path).unwrap();

    let stats = index.stats();
    assert_eq!(stats.num_files, 0);
}

#[test]
fn test_version() {
    assert!(!VERSION.is_empty());
}

#[test]
fn test_index_file_twice_keeps_one_entry() {
    let mut index = SearchIndex::new().unwrap();
    index.index_file(String::from("a.md"), "one").unwrap();
    index.index_file(String::from("a.md"), "two").unwrap();
    index.index_file(String::from("b.md"), "three").unwrap();

    let stats = index.stats();
    assert_eq!(stats.num_files, 2);
    assert_eq!(stats.num_terms, 0);
}
