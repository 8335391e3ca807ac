use simplealbum::cache::Lookup;
use simplealbum::counts::{counts_for, CountCache, CountWalk, Counts, MAX_ENTRIES};
use simplealbum::entry::{DirEntry, EntryKind, LinkTarget};

/// Files of a folder tree, by path.
struct Tree(Vec<&'static str>);

impl Tree {
    fn list(&self, dir: &str) -> Option<Vec<DirEntry>> {
        let prefix = if dir.is_empty() { String::new() } else { format!("{dir}/") };
        let mut entries: Vec<DirEntry> = Vec::new();
        for file in &self.0 {
            let Some(rest) = file.strip_prefix(prefix.as_str()) else { continue };
            let (name, kind) = match rest.split_once('/') {
                Some((name, _)) => (name, EntryKind::Dir),
                None => (rest, EntryKind::File),
            };
            if !entries.iter().any(|e| e.name == name) {
                entries.push(DirEntry { name: name.to_string(), kind });
            }
        }
        if entries.is_empty() {
            None
        } else {
            Some(entries)
        }
    }

    fn count_subtree(&self, folder: &str) -> Vec<(String, Counts)> {
        let mut walk = CountWalk::start(folder);
        while let Some(dir) = walk.next() {
            walk.feed(self.list(&dir));
        }
        walk.finish()
    }
}

fn tree() -> Tree {
    Tree(vec![
        "a/b/one.jpg",
        "a/two.mp4",
        "c/three.png",
        // Passed over: generated thumbnails, hidden and other files.
        "a/thumbs/one_thumb.jpg",
        ".hidden/four.jpg",
        "a/notes.txt",
    ])
}

#[test]
fn counts_are_recursive_and_albums_only_immediate() {
    let counts = tree().count_subtree("");

    // Two top-level albums, three media files in total.
    assert_eq!(counts_for(&counts, ""), Some((3, 2)));
    // `a` holds its own video plus the photo of `b`, and one subalbum.
    assert_eq!(counts_for(&counts, "a"), Some((2, 1)));
    assert_eq!(counts_for(&counts, "a/b"), Some((1, 0)));
    assert_eq!(counts_for(&counts, "c"), Some((1, 0)));
    // Passed over paths never appear.
    assert_eq!(counts_for(&counts, "a/thumbs"), None);
    assert_eq!(counts_for(&counts, ".hidden"), None);
}

#[test]
fn cache_populates_descendants_and_honours_invalidation() {
    let tree = tree();
    let mut cache = CountCache::new();

    assert_eq!(cache.count("a", || tree.count_subtree("a")), (2, 1));
    // Descendants were cached by the same walk.
    assert_eq!(cache.get("a/b"), Some((1, 0)));

    cache.invalidate();
    assert_eq!(cache.get("a/b"), None, "invalidation must drop old entries");
    assert_eq!(cache.count("a/b", || tree.count_subtree("a/b")), (1, 0));
}

#[test]
fn a_missing_folder_counts_as_empty() {
    let tree = tree();
    let mut cache = CountCache::new();
    assert_eq!(
        cache.count("does-not-exist", || tree.count_subtree("does-not-exist")),
        (0, 0)
    );
}

#[test]
fn a_cached_count_is_not_walked_again() {
    let mut cache = CountCache::new();
    assert_eq!(cache.count("a", || vec![("a".to_string(), (5, 2))]), (5, 2));
    let mut walked = false;
    let again = cache.count("a", || {
        walked = true;
        Vec::new()
    });
    assert_eq!(again, (5, 2));
    assert!(!walked);
    // A folder the walk did not reach counts as empty.
    assert_eq!(cache.count("b", || vec![("c".to_string(), (1, 1))]), (0, 0));
    assert_eq!(cache.get("c"), Some((1, 1)));
}

#[test]
fn a_walk_overtaken_by_a_change_is_ignored() {
    let mut cache = CountCache::new();
    let ticket = cache.generation();
    cache.invalidate();
    cache.extend(ticket, &vec![("a".to_string(), (9, 9))]);
    assert_eq!(cache.get("a"), None);
    cache.extend(cache.generation(), &vec![("a".to_string(), (1, 0))]);
    assert_eq!(cache.get("a"), Some((1, 0)));
}

#[test]
fn an_overflowing_cache_is_dropped_wholesale() {
    let mut cache = CountCache::new();
    let many: Vec<(String, Counts)> = (0..MAX_ENTRIES).map(|i| (format!("{i}"), (i, 0))).collect();
    cache.extend(0, &many);
    assert_eq!(cache.get("7"), Some((7, 0)));
    cache.extend(0, &vec![("new".to_string(), (1, 1))]);
    assert_eq!(cache.get("7"), None);
    assert_eq!(cache.get("new"), Some((1, 1)));
}

#[test]
fn links_are_counted_as_what_they_lead_to() {
    let entries = vec![
        DirEntry { name: "real.jpg".to_string(), kind: EntryKind::File },
        DirEntry { name: "link.jpg".to_string(), kind: EntryKind::Link(LinkTarget::File) },
        DirEntry { name: "dir.jpg".to_string(), kind: EntryKind::Link(LinkTarget::Dir) },
        DirEntry { name: "linked".to_string(), kind: EntryKind::Link(LinkTarget::Dir) },
        DirEntry { name: "odd.jpg".to_string(), kind: EntryKind::Unknown },
        DirEntry { name: "sub".to_string(), kind: EntryKind::Dir },
    ];
    let mut walk = CountWalk::start("a");
    assert_eq!(walk.next(), Some("a".to_string()));
    walk.feed(Some(entries));
    assert_eq!(walk.photos_seen(), 2);
    // A directory behind a link is neither counted nor entered.
    assert_eq!(walk.next(), Some("a/sub".to_string()));
    walk.feed(None);
    assert_eq!(walk.next(), None);
    let counts = walk.finish();
    assert_eq!(counts_for(&counts, "a"), Some((2, 1)));
    assert_eq!(counts_for(&counts, "a/sub"), Some((0, 0)));
}

#[test]
fn totals_add_up_over_several_levels() {
    let tree = Tree(vec![
        "x/1.jpg", "x/a/2.jpg", "x/a/3.jpg", "x/a/b/4.jpg", "x/a/b/c/5.jpg", "x/d/6.jpg",
    ]);
    let counts = tree.count_subtree("x");
    assert_eq!(counts_for(&counts, "x"), Some((6, 2)));
    assert_eq!(counts_for(&counts, "x/a"), Some((4, 1)));
    assert_eq!(counts_for(&counts, "x/a/b"), Some((2, 1)));
    assert_eq!(counts_for(&counts, "x/a/b/c"), Some((1, 0)));
    assert_eq!(counts_for(&counts, "x/d"), Some((1, 0)));
}

#[test]
fn a_walk_above_the_bound_is_answered_and_not_cached() {
    let many: Vec<(String, Counts)> =
        (0..MAX_ENTRIES + 1).map(|i| (format!("{i}"), (i, 0))).collect();
    let mut cache = CountCache::new();
    cache.extend(0, &vec![("kept".to_string(), (1, 1))]);
    assert_eq!(cache.count("7", || many.clone()), (7, 0));
    // Nothing of the walk is live, and the rest had to make room.
    assert!(many.iter().all(|(folder, _)| cache.get(folder).is_none()));
    assert_eq!(cache.get("kept"), None);
    // A later walk within the bound is cached as ever.
    cache.extend(0, &vec![("7".to_string(), (8, 1))]);
    assert_eq!(cache.get("7"), Some((8, 1)));
}

#[test]
fn a_folder_counts_the_same_on_its_own() {
    let tree = Tree(vec![
        "x/1.jpg", "x/a/2.jpg", "x/a/b/3.jpg", "x/a/c/4.jpg", "x/a/c/d/5.jpg", "x/e/6.jpg",
    ]);
    let whole = tree.count_subtree("");
    let paths: Vec<&str> = whole.iter().map(|(path, _)| path.as_str()).collect();
    // Each folder once, the last subfolder first.
    assert_eq!(paths, vec!["", "x", "x/e", "x/a", "x/a/c", "x/a/c/d", "x/a/b"]);
    for (path, counts) in &whole {
        assert_eq!(counts_for(&tree.count_subtree(path), path), Some(*counts), "{path}");
    }
}

#[test]
fn a_walk_is_published_by_its_ticket() {
    let tree = tree();
    let mut cache = CountCache::new();
    let Lookup::Miss(ticket) = cache.begin("a") else { panic!("nothing is cached yet") };
    assert_eq!(cache.publish(ticket, "a", &tree.count_subtree("a")), (2, 1));
    assert!(matches!(cache.begin("a/b"), Lookup::Hit((1, 0))));
    // A folder the walk did not reach counts as empty.
    assert_eq!(cache.publish(ticket, "z", &tree.count_subtree("a")), (0, 0));

    // A change during the walk makes its results stale, but they are still given.
    let Lookup::Miss(late) = cache.begin("c") else { panic!("nothing is cached yet") };
    cache.invalidate();
    assert_eq!(cache.publish(late, "c", &tree.count_subtree("c")), (1, 0));
    assert!(matches!(cache.begin("c"), Lookup::Miss(now) if now != late));
    // A ticket that was never given out is void.
    cache.publish(cache.generation() + 1, "c", &tree.count_subtree("c"));
    cache.invalidate();
    assert_eq!(cache.get("c"), None);
}
