use file_search::codec::{load, save};
use file_search::filename_index::FilenameIndex;
use file_search::paths::basename;

fn paths_of(index: &FilenameIndex, name: &str) -> Vec<String> {
    let mut v: Vec<String> = index
        .exact_search(name)
        .iter()
        .map(|a| a.as_str().to_string())
        .collect();
    v.sort();
    v
}

#[test]
fn basename_strips_directories() {
    assert_eq!(basename("/home/user/photo1.png"), "photo1.png");
    assert_eq!(basename("relative/dir/a.txt"), "a.txt");
    assert_eq!(basename("plain"), "plain");
    assert_eq!(basename("/trailing/dir/"), "dir");
    assert_eq!(basename(""), "");
    assert_eq!(basename("///"), "");
}

#[test]
fn insert_is_idempotent() {
    // inserting the same (basename, path) pair twice leaves the set unchanged
    let mut index = FilenameIndex::new();
    index.insert("/a/photo1.png");
    index.insert("/a/photo1.png");
    assert_eq!(paths_of(&index, "photo1.png"), vec!["/a/photo1.png".to_string()]);
    index.insert("/b/photo1.png");
    let two = paths_of(&index, "photo1.png");
    assert_eq!(two.len(), 2);
    index.insert("/b/photo1.png");
    assert_eq!(paths_of(&index, "photo1.png"), two);
}

#[test]
fn exact_search_misses_are_empty() {
    let mut index = FilenameIndex::new();
    index.insert("/a/one.txt");
    assert!(index.exact_search("two.txt").is_empty());
    assert!(index.exact_search("").is_empty());
}

#[test]
fn keys_lists_distinct_basenames() {
    let mut index = FilenameIndex::new();
    index.insert("/a/one.txt");
    index.insert("/b/one.txt");
    index.insert("/a/two.txt");
    let mut keys: Vec<String> = index.keys().iter().map(|a| a.as_str().to_string()).collect();
    keys.sort();
    assert_eq!(keys, vec!["one.txt".to_string(), "two.txt".to_string()]);
}

#[test]
fn save_load_round_trip() {
    // load(save(index)) reproduces the key set and each key's path set
    let mut index = FilenameIndex::new();
    index.insert("/a/photo1.png");
    index.insert("/b/photo1.png");
    index.insert("/a/notes.txt");
    let bytes = save(&index);
    let loaded = load(&bytes);
    assert_eq!(paths_of(&loaded, "photo1.png"), paths_of(&index, "photo1.png"));
    assert_eq!(paths_of(&loaded, "notes.txt"), paths_of(&index, "notes.txt"));
    let mut keys: Vec<String> = loaded.keys().iter().map(|a| a.as_str().to_string()).collect();
    keys.sort();
    assert_eq!(keys, vec!["notes.txt".to_string(), "photo1.png".to_string()]);
}

#[test]
fn empty_index_round_trips() {
    let index = FilenameIndex::new();
    let bytes = save(&index);
    let loaded = load(&bytes);
    assert!(loaded.keys().is_empty());
}

#[test]
fn corrupt_bytes_load_as_empty() {
    // corruption is "no prior index", not an error
    let garbage = vec![7u8, 1, 2, 3];
    assert!(load(&garbage).keys().is_empty());
    let mut index = FilenameIndex::new();
    index.insert("/a/one.txt");
    let mut bytes = save(&index);
    bytes.pop();
    assert!(load(&bytes).keys().is_empty());
    let empty: Vec<u8> = Vec::new();
    assert!(load(&empty).keys().is_empty());
}

#[test]
fn trailing_garbage_loads_as_empty() {
    let mut index = FilenameIndex::new();
    index.insert("/a/one.txt");
    let mut bytes = save(&index);
    bytes.push(0);
    assert!(load(&bytes).keys().is_empty());
}
