use simplealbum::covers::CoverCache;
use simplealbum::db::PhotoMeta;
use simplealbum::entry::{sort_by_name, DirEntry, EntryKind, LinkTarget};
use simplealbum::listing::{
    build_album_response, build_breadcrumbs, explicit_cover, plan_listing, FolderFacts,
};
use simplealbum::models::AlbumResponse;
use simplealbum::search::{
    compute_cover_thumb, find_first_thumb_recursive, resolve_cover, stem_of_thumb, FolderScan,
};
use simplealbum::util::{thumb_name, validate_path};

/// Files of a folder tree, by path, and entries that are neither files nor
/// directories.
struct Tree {
    files: Vec<&'static str>,
    links: Vec<(&'static str, LinkTarget)>,
}

impl Tree {
    fn new(files: &[&'static str]) -> Self {
        Tree { files: files.to_vec(), links: Vec::new() }
    }

    fn list(&self, dir: &str) -> Option<Vec<DirEntry>> {
        let prefix = if dir.is_empty() { String::new() } else { format!("{dir}/") };
        let mut entries: Vec<DirEntry> = Vec::new();
        for file in &self.files {
            let Some(rest) = file.strip_prefix(prefix.as_str()) else { continue };
            let (name, kind) = match rest.split_once('/') {
                Some((name, _)) => (name, EntryKind::Dir),
                None => (rest, EntryKind::File),
            };
            if !name.is_empty() && !entries.iter().any(|e| e.name == name) {
                entries.push(DirEntry { name: name.to_string(), kind });
            }
        }
        for (link, target) in &self.links {
            if let Some(name) = link.strip_prefix(prefix.as_str()) {
                if !name.contains('/') {
                    entries.push(DirEntry {
                        name: name.to_string(),
                        kind: EntryKind::Link(*target),
                    });
                }
            }
        }
        if entries.is_empty() {
            None
        } else {
            Some(entries)
        }
    }

    fn scan(&self, dir: &str) -> FolderScan {
        let thumbs = if dir.is_empty() { "thumbs".to_string() } else { format!("{dir}/thumbs") };
        FolderScan { entries: self.list(dir), thumbs: self.list(&thumbs) }
    }

    fn scan_below(&self, folder: &str, rel: &str) -> FolderScan {
        if rel.is_empty() {
            self.scan(folder)
        } else if folder.is_empty() {
            self.scan(rel)
        } else {
            self.scan(&format!("{folder}/{rel}"))
        }
    }

    fn cover(&self, folder: &str) -> Option<String> {
        find_first_thumb_recursive(|rel: &str| self.scan_below(folder, rel))
    }
}

fn no_facts() -> FolderFacts {
    FolderFacts { counts: (0, 0), stored: None, stored_exists: false, computed: None }
}

fn list(tree: &Tree, metadata: &[(&str, PhotoMeta)]) -> AlbumResponse {
    let plan = plan_listing("", tree.list("").unwrap_or_default());
    let rows: Vec<(String, PhotoMeta)> =
        metadata.iter().map(|(path, meta)| (path.to_string(), *meta)).collect();
    let facts: Vec<FolderFacts> = plan.subfolders.iter().map(|_| no_facts()).collect();
    build_album_response("", "/srv/photos", &plan, &rows, &facts)
}

fn meta(width: u32, height: u32, duration: Option<u64>, modified: i64) -> PhotoMeta {
    PhotoMeta { width, height, duration, modified, probed: true }
}

#[test]
fn breadcrumbs_accumulate_the_path() {
    let root_crumbs = build_breadcrumbs("");
    assert_eq!(root_crumbs.len(), 1);
    assert_eq!(root_crumbs[0].name, "Home");
    assert_eq!(root_crumbs[0].path, "");
    let crumbs = build_breadcrumbs("1970-79/1970/summer holiday");
    assert_eq!(crumbs.len(), 4);
    assert_eq!(crumbs[1].name, "1970-79");
    assert_eq!(crumbs[1].path, "1970-79");
    assert_eq!(crumbs[3].name, "summer holiday");
    assert_eq!(crumbs[3].path, "1970-79/1970/summer holiday");
}

#[test]
fn a_trailing_slash_cannot_add_an_empty_breadcrumb() {
    let normalised = validate_path("1970-79/1970/").unwrap();
    assert_eq!(normalised, "1970-79/1970");
    let crumbs = build_breadcrumbs(&normalised);
    assert_eq!(crumbs.len(), 3, "Home / 1970-79 / 1970");
    assert!(crumbs.iter().all(|c| !c.name.is_empty()));
}

#[test]
fn cover_thumb_is_relative_to_the_covering_folder() {
    assert_eq!(
        compute_cover_thumb("1980-89", "1980-89/1981/beach.jpg"),
        Some("1981/thumbs/beach_thumb.jpg".to_string())
    );
    // A cover on the album root is the image's own folder, relative to root.
    assert_eq!(
        compute_cover_thumb("", "1980-89/1981/beach.jpg"),
        Some("1980-89/1981/thumbs/beach_thumb.jpg".to_string())
    );
    // Image directly inside the folder the cover is set on.
    assert_eq!(
        compute_cover_thumb("1980-89", "1980-89/beach.jpg"),
        Some("thumbs/beach_thumb.jpg".to_string())
    );
}

#[test]
fn a_cover_is_the_same_thumbnail_from_every_ancestor() {
    let image = "a/b/c/x.png";
    let full = compute_cover_thumb("", image).unwrap();
    assert_eq!(full, "a/b/c/thumbs/x_thumb.png");
    for folder in ["a", "a/b", "a/b/c"] {
        let seen = compute_cover_thumb(folder, image).unwrap();
        assert_eq!(format!("{folder}/{seen}"), full);
    }
    // A name that only begins alike is no ancestor.
    assert_eq!(compute_cover_thumb("a/b/c/x", image), Some(full.clone()));
    assert_eq!(compute_cover_thumb("a/", "ab/x.png"), Some("ab/thumbs/x_thumb.png".to_string()));
}

#[test]
fn a_cover_without_a_name_has_no_thumbnail() {
    assert_eq!(compute_cover_thumb("a", ""), None);
    assert_eq!(compute_cover_thumb("a", "a/.."), None);
    // An image outside the folder keeps its whole path.
    assert_eq!(compute_cover_thumb("a", "b/x.jpg"), Some("b/thumbs/x_thumb.jpg".to_string()));
}

#[test]
fn links_are_listed_only_when_they_resolve_to_a_usable_target() {
    let mut tree = Tree::new(&["real.jpg"]);
    tree.links.push(("link.jpg", LinkTarget::File));
    tree.links.push(("dangling.jpg", LinkTarget::Missing));
    tree.links.push(("linked-dir", LinkTarget::Dir));

    let response = list(&tree, &[]);

    let photos: Vec<&str> = response.photos.iter().map(|p| p.name.as_str()).collect();
    assert!(photos.contains(&"real.jpg"), "photos: {photos:?}");
    assert!(photos.contains(&"link.jpg"), "photos: {photos:?}");
    assert!(!photos.contains(&"dangling.jpg"), "photos: {photos:?}");

    let folders: Vec<&str> = response.folders.iter().map(|f| f.name.as_str()).collect();
    assert!(
        !folders.contains(&"linked-dir"),
        "a symlinked directory must not be listed as a folder: {folders:?}"
    );
}

#[test]
fn a_folder_listing_reports_the_metadata_it_has() {
    let tree = Tree::new(&["a.jpg", "b.mp4", "thumbs/a_thumb.jpg", "sub/"]);
    let response = list(
        &tree,
        &[
            ("a.jpg", meta(400, 300, None, 1)),
            ("b.mp4", meta(1920, 1080, Some(90), 2)),
            // Zero means unknown, not instant.
            ("c.mp4", meta(640, 480, Some(0), 3)),
        ],
    );

    let by_name = |name: &str| response.photos.iter().find(|p| p.name == name).unwrap();
    assert_eq!((by_name("a.jpg").width, by_name("a.jpg").height), (400, 300));
    assert_eq!(by_name("b.mp4").duration, Some(90));
    assert_eq!(by_name("b.mp4").media_type, "video");
    assert_eq!(by_name("a.jpg").thumb, "thumbs/a_thumb.jpg");
    // The thumbs folder is not itself listed.
    assert_eq!(response.folders.len(), 1);
    assert_eq!(response.folders[0].name, "sub");
}

#[test]
fn durations_are_shown_for_videos_only_and_never_zero() {
    let tree = Tree::new(&["a.jpg", "c.mp4", "d.mp4"]);
    let response = list(
        &tree,
        &[("a.jpg", meta(1, 2, Some(5), 1)), ("c.mp4", meta(640, 480, Some(0), 3))],
    );
    assert_eq!(response.photos[0].duration, None);
    assert_eq!(response.photos[1].duration, None);
    // Without a row the dimensions are zero.
    assert_eq!((response.photos[2].width, response.photos[2].height), (0, 0));
    assert_eq!(response.photos[2].duration, None);
    assert_eq!(response.name, "photos");
    assert_eq!(response.path, "");
}

#[test]
fn a_listing_is_ordered_by_name() {
    let tree = Tree::new(&["b.jpg", "a.jpg", "B.jpg", "z/x.jpg", "c/x.jpg", "\u{e9}.jpg"]);
    let plan = plan_listing("p", tree.list("").unwrap());
    assert_eq!(plan.media, vec!["B.jpg", "a.jpg", "b.jpg", "\u{e9}.jpg"]);
    assert_eq!(plan.photo_paths[1], "p/a.jpg");
    assert_eq!(plan.subfolders, vec!["p/c", "p/z"]);
    let sorted = sort_by_name(tree.list("").unwrap());
    let names: Vec<&str> = sorted.iter().map(|e| e.name.as_str()).collect();
    let mut expected = names.clone();
    expected.sort();
    assert_eq!(names, expected);
    assert_eq!(names.len(), 6);
}

#[test]
fn a_stored_cover_wins_while_its_image_exists() {
    let tree = Tree::new(&["sub/photo.jpg"]);
    let plan = plan_listing("", tree.list("").unwrap());
    let facts = |exists: bool| {
        vec![FolderFacts {
            counts: (12, 1),
            stored: Some("sub/deep/photo.jpg".to_string()),
            stored_exists: exists,
            computed: Some("thumbs/other_thumb.jpg".to_string()),
        }]
    };
    let stored = build_album_response("", "", &plan, &Vec::new(), &facts(true));
    assert_eq!(stored.folders[0].cover, Some("deep/thumbs/photo_thumb.jpg".to_string()));
    assert_eq!((stored.folders[0].count_photos, stored.folders[0].count_albums), (12, 1));
    assert_eq!(stored.name, "Home");
    let gone = build_album_response("", "", &plan, &Vec::new(), &facts(false));
    assert_eq!(gone.folders[0].cover, Some("thumbs/other_thumb.jpg".to_string()));
    assert_eq!(explicit_cover("sub", &None, true), None);
}

#[test]
fn the_computed_cover_is_cached_until_it_is_invalidated() {
    let mut covers = CoverCache::new();
    let empty = Tree::new(&[]);

    // Nothing to find yet: the miss is cached as "no cover".
    assert_eq!(resolve_cover(&mut covers, "b", |rel: &str| empty.scan_below("b", rel)), None);
    let tree = Tree::new(&["b/photo.jpg", "b/thumbs/photo_thumb.jpg"]);
    assert_eq!(
        resolve_cover(&mut covers, "b", |rel: &str| tree.scan_below("b", rel)),
        None,
        "a memoised miss must not be recomputed for every request"
    );

    // The watcher invalidates on exactly this kind of change.
    covers.invalidate();
    assert_eq!(
        resolve_cover(&mut covers, "b", |rel: &str| tree.scan_below("b", rel)),
        Some("thumbs/photo_thumb.jpg".to_string())
    );

    // A cover is only offered when its source still exists.
    let without = Tree::new(&["b/thumbs/photo_thumb.jpg"]);
    covers.invalidate();
    assert_eq!(resolve_cover(&mut covers, "b", |rel: &str| without.scan_below("b", rel)), None);
}

#[test]
fn nothing_is_looked_into_while_a_cover_is_live() {
    let mut covers = CoverCache::new();
    let tree = Tree::new(&["b/photo.jpg", "b/thumbs/photo_thumb.jpg"]);
    let looks = std::cell::Cell::new(0);
    let scan = |rel: &str| {
        looks.set(looks.get() + 1);
        tree.scan_below("b", rel)
    };
    let first = resolve_cover(&mut covers, "b", scan);
    let before = looks.get();
    assert!(before > 0);
    assert_eq!(resolve_cover(&mut covers, "b", scan), first);
    assert_eq!(looks.get(), before);
}

#[test]
fn thumbnail_names_give_the_stem_back() {
    let names = [
        "clip.mp4", "clip.mov", "photo.JPG", "photo.jpg", "photo.png", "a_thumb.jpg",
        "a_thumb.b.webp", "a.b.c.jpeg", "jpg", ".jpg", "mp4",
    ];
    let parts = |name: &str| -> (String, String) {
        let thumb = thumb_name(name);
        let (stem, ext) = thumb.rsplit_once("_thumb.").unwrap();
        assert_eq!(stem_of_thumb(&thumb), Some(stem.to_string()));
        assert_eq!(std::path::Path::new(name).file_stem().unwrap().to_str(), Some(stem));
        (stem.to_string(), ext.to_string())
    };
    for a in names {
        for b in names {
            assert_eq!(thumb_name(a) == thumb_name(b), parts(a) == parts(b), "{a} and {b}");
        }
    }
    assert_eq!(parts("a_thumb.jpg"), ("a_thumb".to_string(), "jpg".to_string()));
}

#[test]
fn cover_lookup_prefers_the_stored_choice_and_falls_back_to_the_walk() {
    let tree = Tree::new(&["sub/photo.jpg", "sub/thumbs/photo_thumb.jpg"]);
    let mut covers = CoverCache::new();

    // No stored choice: the walk finds the only thumbnail.
    assert_eq!(
        resolve_cover(&mut covers, "sub", |rel: &str| tree.scan_below("sub", rel)),
        Some("thumbs/photo_thumb.jpg".to_string())
    );

    // A stored choice wins over the computed one, and is relative to the
    // folder that owns it.
    assert_eq!(
        compute_cover_thumb("sub", "sub/photo.jpg"),
        Some("thumbs/photo_thumb.jpg".to_string())
    );
    assert_eq!(
        compute_cover_thumb("", "sub/photo.jpg"),
        Some("sub/thumbs/photo_thumb.jpg".to_string())
    );
    assert_eq!(explicit_cover("sub", &None, false), None);
}

#[test]
fn covers_are_searched_for_three_levels_down() {
    let own = Tree::new(&[
        "f/b.jpg", "f/a.jpg", "f/thumbs/b_thumb.jpg", "f/thumbs/a_thumb.jpg",
        "f/sub/c.jpg", "f/sub/thumbs/c_thumb.jpg",
    ]);
    assert_eq!(own.cover("f"), Some("thumbs/a_thumb.jpg".to_string()));

    let child = Tree::new(&[
        "f/a/x/deep.jpg", "f/a/x/thumbs/deep_thumb.jpg", "f/b/c.jpg", "f/b/thumbs/c_thumb.jpg",
    ]);
    // Every child comes before any grandchild.
    assert_eq!(child.cover("f"), Some("b/thumbs/c_thumb.jpg".to_string()));

    let grandchild = Tree::new(&["f/a/x/deep.jpg", "f/a/x/thumbs/deep_thumb.jpg"]);
    assert_eq!(grandchild.cover("f"), Some("a/x/thumbs/deep_thumb.jpg".to_string()));

    let too_deep = Tree::new(&["f/a/x/y/deep.jpg", "f/a/x/y/thumbs/deep_thumb.jpg"]);
    assert_eq!(too_deep.cover("f"), None);
}

#[test]
fn an_orphaned_or_hidden_thumbnail_is_no_cover() {
    let orphan = Tree::new(&["f/new.jpg", "f/thumbs/old_thumb.jpg", "f/thumbs/.new_thumb.jpg"]);
    assert_eq!(orphan.cover("f"), None);
    let other = Tree::new(&["f/new.jpg", "f/thumbs/readme.txt", "f/thumbs/new_thumb.jpg"]);
    assert_eq!(other.cover("f"), Some("thumbs/new_thumb.jpg".to_string()));
    assert_eq!(stem_of_thumb("a_thumb.b_thumb.jpg"), Some("a_thumb.b".to_string()));
    assert_eq!(stem_of_thumb("thumb.jpg"), None);
}
