use simplealbum::watcher::{
    is_thumbs, react, strip_root, Action, EventKind, InFlight, PathState, Reaction,
};
use simplealbum::worker::ThumbJob;

#[test]
fn strip_root_handles_configured_and_canonical_forms() {
    let root = "/tmp/album";
    let canonical = "/private/tmp/album";
    // Configured form.
    assert_eq!(
        strip_root(root, canonical, "/tmp/album/1970/a.jpg"),
        Some("1970/a.jpg".to_string())
    );
    // Resolved form, as some platforms report a root behind a link.
    assert_eq!(
        strip_root(root, canonical, "/private/tmp/album/1970/a.jpg"),
        Some("1970/a.jpg".to_string())
    );
    // The root itself carries no relative path.
    assert_eq!(strip_root(root, canonical, "/tmp/album"), None);
    // Unrelated paths are rejected instead of being treated as relative.
    assert_eq!(strip_root(root, canonical, "/etc/passwd"), None);
    assert_eq!(strip_root(root, canonical, "/private/tmp/other/a.jpg"), None);
}

#[test]
fn thumbs_paths_are_filtered_at_any_depth() {
    assert!(is_thumbs("thumbs"));
    assert!(is_thumbs("thumbs/a_thumb.jpg"));
    assert!(is_thumbs("1970-79/1970/thumbs/a_thumb.jpg"));
    assert!(!is_thumbs("1970-79/1970/a.jpg"));
    assert!(!is_thumbs("1970-79/thumbsup/a.jpg"));
}

#[test]
fn a_nested_thumbs_folder_is_filtered_itself() {
    assert!(is_thumbs("1970-79/thumbs"));
}

fn event(path: &str, kind: EventKind, state: PathState) -> Reaction {
    react("/srv/photos", "/real/photos", path, kind, state)
}

fn drops(r: &Reaction) -> (bool, bool) {
    (r.drop_counts, r.drop_covers)
}

#[test]
fn changes_reach_the_worker() {
    let created = event("/srv/photos/a/b.jpg", EventKind::Changed, PathState::File);
    assert_eq!(drops(&created), (true, true));
    assert!(
        matches!(created.action, Action::Enqueue(ThumbJob::Create { rel_path }) if rel_path == "a/b.jpg")
    );
    let folder = event("/real/photos/a", EventKind::Changed, PathState::Dir);
    assert!(matches!(folder.action, Action::Scan(rel) if rel == "a"));
    // The source of a rename is gone.
    let moved = event("/srv/photos/a", EventKind::Changed, PathState::Missing);
    assert!(matches!(moved.action, Action::Enqueue(ThumbJob::Delete { rel_path }) if rel_path == "a"));
    let removed = event("/srv/photos/a", EventKind::Removed, PathState::File);
    assert_eq!(drops(&removed), (true, true));
    assert!(matches!(removed.action, Action::Enqueue(ThumbJob::Delete { rel_path }) if rel_path == "a"));
}

#[test]
fn a_closed_file_is_looked_at_once_more() {
    let closed = event("/srv/photos/a.jpg", EventKind::Closed, PathState::File);
    assert_eq!(drops(&closed), (false, true));
    assert!(matches!(closed.action, Action::Enqueue(ThumbJob::Create { .. })));
    let gone = event("/srv/photos/a.jpg", EventKind::Closed, PathState::Missing);
    assert_eq!(drops(&gone), (false, false));
    assert!(matches!(gone.action, Action::Nothing));
}

#[test]
fn other_events_are_ignored() {
    let read = event("/srv/photos/a.jpg", EventKind::Other, PathState::File);
    assert_eq!(drops(&read), (false, false));
    assert!(matches!(read.action, Action::Nothing));
    let outside = event("/etc/passwd", EventKind::Removed, PathState::File);
    assert_eq!(drops(&outside), (false, false));
    assert!(matches!(outside.action, Action::Nothing));
}

#[test]
fn thumbnails_only_drop_covers() {
    let thumb = event("/srv/photos/a/thumbs/b_thumb.jpg", EventKind::Changed, PathState::File);
    assert_eq!(drops(&thumb), (false, true));
    assert!(matches!(thumb.action, Action::Nothing));
}

#[test]
fn a_folder_is_not_enumerated_twice_at_once() {
    let mut scans = InFlight::new();
    assert!(scans.begin("a"));
    assert!(!scans.begin("a"));
    assert!(scans.begin("b"));
    scans.end("a");
    assert!(scans.begin("a"));
    assert!(!scans.begin("b"));
}
