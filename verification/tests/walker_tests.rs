use tree_manifest::exclusion::is_excluded;
use tree_manifest::walker::{Entry, EntryKind, Step, WalkError, Walker};

fn names(list: &[&str]) -> Vec<String> {
    list.iter().map(|s| s.to_string()).collect()
}

fn dir(path: &str) -> Entry {
    Entry { path: path.to_string(), kind: EntryKind::Directory }
}

fn file(path: &str) -> Entry {
    Entry { path: path.to_string(), kind: EntryKind::File }
}

fn other(path: &str) -> Entry {
    Entry { path: path.to_string(), kind: EntryKind::Other }
}

/// A tree held in memory: each directory with its listing.
fn listing(tree: &[(&str, Vec<(&str, EntryKind)>)], at: &str, turned: bool) -> Vec<Entry> {
    let mut out = Vec::new();
    for (d, entries) in tree {
        if *d == at {
            for (name, kind) in entries {
                out.push(Entry { path: format!("{}/{}", at, name), kind: *kind });
            }
        }
    }
    if turned {
        out.reverse();
    }
    out
}

fn walk(tree: &[(&str, Vec<(&str, EntryKind)>)], root: &str, exclude: &[&str], turned: bool) -> (Vec<String>, Vec<String>) {
    let mut w = Walker::new(names(exclude));
    let mut listed = vec![root.to_string()];
    w.supply(listing(tree, root, turned));
    loop {
        match w.advance() {
            Step::List(d) => {
                w.supply(listing(tree, &d, turned));
                listed.push(d);
            }
            Step::Done => break,
        }
    }
    (w.into_files(), listed)
}

fn data_tree() -> Vec<(&'static str, Vec<(&'static str, EntryKind)>)> {
    vec![
        ("/data", vec![("a.txt", EntryKind::File), ("lib", EntryKind::Directory)]),
        ("/data/lib", vec![("b.txt", EntryKind::File)]),
    ]
}

#[test]
fn excluded_directory_is_not_walked() {
    let (files, listed) = walk(&data_tree(), "/data", &["lib"], false);
    assert_eq!(files, names(&["/data/a.txt"]));
    assert_eq!(listed, names(&["/data"]));
}

#[test]
fn without_exclusions_every_file_is_found() {
    let (files, listed) = walk(&data_tree(), "/data", &[], false);
    assert_eq!(files, names(&["/data/a.txt", "/data/lib/b.txt"]));
    assert_eq!(listed, names(&["/data", "/data/lib"]));
}

#[test]
fn empty_root_gives_no_files() {
    let tree: Vec<(&str, Vec<(&str, EntryKind)>)> = vec![("/empty", vec![])];
    let (files, listed) = walk(&tree, "/empty", &["lib"], false);
    assert!(files.is_empty());
    assert_eq!(listed, names(&["/empty"]));
}

#[test]
fn walk_goes_depth_first_in_listing_order() {
    let tree = vec![
        ("r", vec![("1", EntryKind::File), ("d", EntryKind::Directory), ("2", EntryKind::File)]),
        ("r/d", vec![("x", EntryKind::File), ("e", EntryKind::Directory), ("y", EntryKind::File)]),
        ("r/d/e", vec![("deep", EntryKind::File)]),
    ];
    let (files, listed) = walk(&tree, "r", &[], false);
    assert_eq!(files, names(&["r/1", "r/d/x", "r/d/e/deep", "r/d/y", "r/2"]));
    assert_eq!(listed, names(&["r", "r/d", "r/d/e"]));
}

#[test]
fn large_excluded_subtree_contributes_nothing() {
    let mut many: Vec<(String, EntryKind)> = Vec::new();
    for i in 0..2000 {
        many.push((format!("f{}.bin", i), EntryKind::File));
    }
    let inner: Vec<(&str, EntryKind)> = many.iter().map(|(n, k)| (n.as_str(), *k)).collect();
    let tree = vec![
        ("top", vec![("keep.txt", EntryKind::File), ("node_modules", EntryKind::Directory), ("src", EntryKind::Directory)]),
        ("top/node_modules", inner),
        ("top/src", vec![("main.rs", EntryKind::File)]),
    ];
    let (files, listed) = walk(&tree, "top", &["node_modules"], false);
    assert_eq!(files, names(&["top/keep.txt", "top/src/main.rs"]));
    assert_eq!(listed, names(&["top", "top/src"]));
}

#[test]
fn no_found_file_has_an_excluded_component() {
    let tree = vec![
        ("r", vec![("lib", EntryKind::File), ("a", EntryKind::Directory), ("target", EntryKind::Directory), ("k", EntryKind::File)]),
        ("r/a", vec![("lib", EntryKind::Directory), ("ok", EntryKind::File), (".git", EntryKind::File)]),
        ("r/a/lib", vec![("hidden", EntryKind::File)]),
        ("r/target", vec![("out", EntryKind::File)]),
    ];
    let e = [".idea", "target", ".git", "node_modules", "lib"];
    let (files, _) = walk(&tree, "r", &e, false);
    assert_eq!(files, names(&["r/a/ok", "r/k"]));
    for f in &files {
        assert!(!is_excluded(f, &names(&e)));
    }
}

#[test]
fn listing_order_changes_only_the_order_found() {
    let tree = vec![
        ("r", vec![("1", EntryKind::File), ("d", EntryKind::Directory), ("2", EntryKind::File)]),
        ("r/d", vec![("x", EntryKind::File), ("y", EntryKind::File)]),
    ];
    let (mut forth, _) = walk(&tree, "r", &[], false);
    let (mut back, _) = walk(&tree, "r", &[], true);
    assert_ne!(forth, back);
    forth.sort();
    back.sort();
    assert_eq!(forth, back);
}

#[test]
fn other_entries_are_passed_over() {
    let mut w = Walker::new(names(&[]));
    w.supply(vec![other("r/socket"), file("r/f"), other("r/pipe")]);
    assert!(matches!(w.advance(), Step::Done));
    assert_eq!(w.files(), &names(&["r/f"]));
}

#[test]
fn advance_stops_at_each_directory() {
    let mut w = Walker::new(names(&["skip"]));
    w.supply(vec![file("r/a"), dir("r/skip"), dir("r/d1"), file("r/b"), dir("r/d2")]);
    match w.advance() {
        Step::List(d) => assert_eq!(d, "r/d1"),
        Step::Done => panic!("a directory was waiting"),
    }
    assert_eq!(w.files(), &names(&["r/a"]));
    w.supply(vec![]);
    match w.advance() {
        Step::List(d) => assert_eq!(d, "r/d2"),
        Step::Done => panic!("a directory was waiting"),
    }
    assert_eq!(w.files(), &names(&["r/a", "r/b"]));
    w.supply(vec![file("r/d2/c")]);
    assert!(matches!(w.advance(), Step::Done));
    assert!(matches!(w.advance(), Step::Done));
    assert_eq!(w.into_files(), names(&["r/a", "r/b", "r/d2/c"]));
}

#[test]
fn new_walk_is_done_at_once() {
    let mut w = Walker::new(names(&["lib"]));
    assert!(matches!(w.advance(), Step::Done));
    assert!(w.files().is_empty());
}

/// A walk over a tree in memory in which some directories cannot be listed.
fn walk_failing(
    tree: &[(&str, Vec<(&str, EntryKind)>)],
    broken: &[(&str, &str)],
    root: &str,
    exclude: &[&str],
) -> (Result<Vec<String>, WalkError>, Vec<String>) {
    let list = |d: &str| -> Result<Vec<Entry>, String> {
        for (b, cause) in broken {
            if *b == d {
                return Err(cause.to_string());
            }
        }
        Ok(listing(tree, d, false))
    };
    let mut asked = vec![root.to_string()];
    let mut w = match Walker::new(names(exclude)).resume(root.to_string(), list(root)) {
        Ok(w) => w,
        Err(e) => return (Err(e), asked),
    };
    loop {
        match w.advance() {
            Step::List(d) => {
                asked.push(d.clone());
                let given = list(&d);
                w = match w.resume(d, given) {
                    Ok(w) => w,
                    Err(e) => return (Err(e), asked),
                };
            }
            Step::Done => return (Ok(w.into_files()), asked),
        }
    }
}

fn forked_tree() -> Vec<(&'static str, Vec<(&'static str, EntryKind)>)> {
    vec![
        ("r", vec![("1", EntryKind::File), ("a", EntryKind::Directory), ("lib", EntryKind::Directory), ("b", EntryKind::Directory), ("2", EntryKind::File)]),
        ("r/a", vec![("x", EntryKind::File), ("deep", EntryKind::Directory)]),
        ("r/a/deep", vec![("y", EntryKind::File)]),
        ("r/lib", vec![("hidden", EntryKind::File)]),
        ("r/b", vec![("z", EntryKind::File)]),
    ]
}

#[test]
fn walk_without_failures_finds_every_file() {
    let (result, asked) = walk_failing(&forked_tree(), &[], "r", &["lib"]);
    assert_eq!(result, Ok(names(&["r/1", "r/a/x", "r/a/deep/y", "r/b/z", "r/2"])));
    assert_eq!(asked, names(&["r", "r/a", "r/a/deep", "r/b"]));
}

#[test]
fn unlistable_root_fails_the_walk_at_once() {
    let (result, asked) = walk_failing(&forked_tree(), &[("r", "no such directory")], "r", &["lib"]);
    assert_eq!(result, Err(WalkError { dir: "r".to_string(), cause: "no such directory".to_string() }));
    assert_eq!(asked, names(&["r"]));
}

#[test]
fn first_unlistable_directory_ends_the_walk() {
    let broken = [("r/b", "late"), ("r/a/deep", "permission denied")];
    let (result, asked) = walk_failing(&forked_tree(), &broken, "r", &["lib"]);
    assert_eq!(result, Err(WalkError { dir: "r/a/deep".to_string(), cause: "permission denied".to_string() }));
    assert_eq!(asked, names(&["r", "r/a", "r/a/deep"]));
}

#[test]
fn unlistable_excluded_directory_does_not_matter() {
    let (result, asked) = walk_failing(&forked_tree(), &[("r/lib", "permission denied")], "r", &["lib"]);
    assert_eq!(result, Ok(names(&["r/1", "r/a/x", "r/a/deep/y", "r/b/z", "r/2"])));
    assert_eq!(asked, names(&["r", "r/a", "r/a/deep", "r/b"]));
}

#[test]
fn resume_lays_a_listing_on_what_waits() {
    let w = Walker::new(names(&[])).resume("r".to_string(), Ok(vec![dir("r/d"), file("r/f")])).unwrap();
    let mut w = w;
    match w.advance() {
        Step::List(d) => assert_eq!(d, "r/d"),
        Step::Done => panic!("a directory was waiting"),
    }
    let mut w = w.resume("r/d".to_string(), Ok(vec![file("r/d/g")])).unwrap();
    assert!(matches!(w.advance(), Step::Done));
    assert_eq!(w.into_files(), names(&["r/d/g", "r/f"]));
}

#[test]
fn resume_with_a_failure_gives_the_directory_and_the_cause() {
    let mut w = Walker::new(names(&[]));
    w.supply(vec![file("r/f"), dir("r/d")]);
    assert!(matches!(w.advance(), Step::List(_)));
    let e = w.resume("r/d".to_string(), Err("gone".to_string())).unwrap_err();
    assert_eq!(e.dir, "r/d");
    assert_eq!(e.cause, "gone");
}
