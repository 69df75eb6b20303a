use file_search::trie::Trie;

#[test]
fn search_finds_stored_paths_by_basename() {
    let mut t = Trie::new();
    t.insert("/a/photo1.png");
    t.insert("/b/photo1.png");
    t.insert("/a/photo2.png");
    let hits = t.search("photo1.png").expect("stored basename");
    let mut hits: Vec<String> = hits.iter().map(|a| a.as_str().to_string()).collect();
    hits.sort();
    assert_eq!(hits, vec!["/a/photo1.png".to_string(), "/b/photo1.png".to_string()]);
    assert!(t.search("photo3.png").is_none());
    assert!(t.search("photo").is_none());
}

#[test]
fn predictive_search_reports_every_prefix() {
    // trie completeness: each stored basename is reported for every prefix
    // of it, the empty prefix and the full name included
    let mut t = Trie::new();
    t.insert("/x/photo1.png");
    t.insert("/x/photo2.png");
    t.insert("/x/notes.txt");
    let full = "photo1.png";
    for cut in 0..=full.len() {
        let prefix = &full[..cut];
        let names = t.predictive_search(prefix);
        assert!(
            names.iter().any(|n| n == full),
            "prefix {:?} must report {:?}",
            prefix,
            full
        );
    }
    let all = t.predictive_search("");
    let mut all_sorted = all.clone();
    all_sorted.sort();
    assert_eq!(
        all_sorted,
        vec!["notes.txt".to_string(), "photo1.png".to_string(), "photo2.png".to_string()]
    );
    let ph = t.predictive_search("photo");
    assert_eq!(ph.len(), 2);
    assert!(t.predictive_search("q").is_empty());
}

#[test]
fn predictive_search_reports_only_matching_names() {
    let mut t = Trie::new();
    t.insert("/x/alpha.txt");
    t.insert("/x/beta.txt");
    for name in t.predictive_search("al") {
        assert!(name.starts_with("al"));
    }
}

#[test]
fn predictive_search_reports_each_name_once() {
    let mut t = Trie::new();
    t.insert("/a/photo1.png");
    t.insert("/b/photo1.png");
    let names = t.predictive_search("photo");
    assert_eq!(names, vec!["photo1.png".to_string()]);
}
