use std::collections::HashMap;

use file_search::walker::{DirWalker, WalkScheduler};

#[test]
fn new_walker_holds_the_root() {
    let w = DirWalker::new("/root/dir").unwrap();
    assert_eq!(w.dirs, vec!["/root/dir".to_string()]);
}

#[test]
fn image_extensions_are_recognized() {
    assert!(DirWalker::is_image("/a/photo1.png"));
    assert!(DirWalker::is_image("photo.jpg"));
    assert!(DirWalker::is_image("dir.v2/shot.jpeg"));
    assert!(!DirWalker::is_image("/a/notes.txt"));
    assert!(!DirWalker::is_image("/a/archive.PNG"));
    assert!(!DirWalker::is_image("/a/noextension"));
    assert!(!DirWalker::is_image("/a/.png"));
    // a trailing separator is dropped before the extension is read
    assert!(DirWalker::is_image("/a/dir.png/"));
}

#[test]
fn symlink_verdict_rejects_on_either_probe() {
    assert!(DirWalker::is_symlink(true, Some(false)));
    assert!(DirWalker::is_symlink(false, Some(true)));
    assert!(DirWalker::is_symlink(false, None));
    assert!(!DirWalker::is_symlink(false, Some(false)));
}

/// A synthetic directory tree: path -> (file entries, subdirectory
/// entries), each entry flagged as symlink or not. A symlinked
/// subdirectory pointing back up forms the cycle.
fn synthetic_tree() -> HashMap<String, (Vec<(String, bool)>, Vec<(String, bool)>)> {
    let mut t = HashMap::new();
    t.insert(
        "/root".to_string(),
        (
            vec![("/root/a.png".to_string(), false), ("/root/link.png".to_string(), true)],
            vec![("/root/d1".to_string(), false), ("/root/cycle".to_string(), true)],
        ),
    );
    t.insert(
        "/root/d1".to_string(),
        (
            vec![("/root/d1/b.txt".to_string(), false)],
            vec![("/root/d1/d2".to_string(), false)],
        ),
    );
    t.insert(
        "/root/d1/d2".to_string(),
        (vec![("/root/d1/d2/c.jpg".to_string(), false)], vec![]),
    );
    // the cycle target: reachable only through a symlink
    t.insert(
        "/root/cycle".to_string(),
        (vec![("/root/cycle/hidden.png".to_string(), false)], vec![("/root".to_string(), false)]),
    );
    t
}

#[test]
fn walk_visits_every_plain_file_exactly_once() {
    // walker coverage: a depth-3 tree with 3 plain files and 2 symlinks
    // (one forming a cycle) fires the callback exactly 3 times, never for
    // a symlinked path or one reachable only through a symlink
    let tree = synthetic_tree();
    let mut sched = WalkScheduler::new("/root".to_string(), 1);
    let mut visited_files: Vec<String> = Vec::new();
    let mut pops = 0usize;
    loop {
        match sched.take_work() {
            Some(dir) => {
                pops += 1;
                if let Some((files, dirs)) = tree.get(&dir) {
                    for (f, symlink) in files {
                        if !DirWalker::is_symlink(*symlink, Some(*symlink)) {
                            visited_files.push(f.clone());
                        }
                    }
                    for (d, symlink) in dirs {
                        sched.add_dir(d.clone(), *symlink);
                    }
                }
            },
            None => {
                assert!(sched.all_idle());
                break;
            },
        }
    }
    visited_files.sort();
    assert_eq!(
        visited_files,
        vec![
            "/root/a.png".to_string(),
            "/root/d1/b.txt".to_string(),
            "/root/d1/d2/c.jpg".to_string()
        ]
    );
    assert_eq!(pops, 3);
}

#[test]
fn empty_root_terminates_after_one_pop() {
    // idle termination: an empty root costs one directory pop, then the
    // idle count reaches the pool size and the walk is over
    let mut sched = WalkScheduler::new("/empty".to_string(), 1);
    assert!(!sched.all_idle());
    let first = sched.take_work();
    assert_eq!(first, Some("/empty".to_string()));
    // the directory has no entries: nothing is added back
    let second = sched.take_work();
    assert!(second.is_none());
    assert!(sched.all_idle());
}

#[test]
fn sleeping_workers_wake_when_work_arrives() {
    let mut sched = WalkScheduler::new("/r".to_string(), 2);
    let d = sched.take_work().unwrap();
    assert_eq!(d, "/r");
    // the second worker finds nothing and sleeps
    assert!(sched.take_work().is_none());
    assert!(!sched.all_idle());
    // the first worker shares a subdirectory and notifies
    sched.add_dir("/r/sub".to_string(), false);
    sched.wake();
    assert_eq!(sched.take_work(), Some("/r/sub".to_string()));
}
