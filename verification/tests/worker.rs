use simplealbum::db::{PhotoMeta, Write};
use simplealbum::entry::{DirEntry, EntryKind, LinkTarget};
use simplealbum::scan::{scan_existing, scan_job, scan_subtree};
use simplealbum::worker::{
    await_stable, file_mtime, metadata_incomplete, mtime_secs, open_gate, process_create,
    process_delete, thumb_is_fresh, update_metadata, worker_concurrency, CreatePlan, Gate,
    Observed, Outcome, Sample, ThumbJob, Timestamp, VideoFacts, STABILITY_MAX_SAMPLES,
};

fn meta(duration: Option<u64>, probed: bool) -> Option<PhotoMeta> {
    Some(PhotoMeta { width: 1920, height: 1080, duration, modified: 1, probed })
}

fn at(secs: i64) -> Timestamp {
    Timestamp { secs, nanos: 0 }
}

fn observed(name: &str, modified: i64, thumb: Option<i64>, row: Option<PhotoMeta>) -> Observed {
    Observed {
        name: name.to_string(),
        size: 10,
        modified: at(modified),
        thumb: thumb.map(at),
        row,
        now: at(1000),
    }
}

#[test]
fn a_video_is_only_reprobed_until_a_probe_has_answered() {
    // No row at all: there is everything to learn, so it needs work.
    assert!(metadata_incomplete(None, "a.mp4"));

    // A row that was never probed is probed once.
    assert!(metadata_incomplete(meta(None, false), "a.mp4"));

    // A probed row is finished with, whether or not the container exposed a
    // duration.
    assert!(!metadata_incomplete(meta(None, true), "a.mp4"));
    assert!(!metadata_incomplete(meta(Some(90), true), "a.mp4"));

    // Images have no probe step; an existing row is complete.
    assert!(!metadata_incomplete(meta(None, false), "a.jpg"));
}

#[test]
fn a_thumbnail_is_fresh_unless_its_source_is_newer() {
    assert!(thumb_is_fresh(at(10), Some(at(10)), at(100)));
    assert!(thumb_is_fresh(at(10), Some(at(11)), at(100)));
    assert!(!thumb_is_fresh(at(10), Some(at(9)), at(100)));
    assert!(!thumb_is_fresh(at(10), None, at(100)));
    let later = Timestamp { secs: 10, nanos: 5 };
    assert!(!thumb_is_fresh(later, Some(at(10)), at(100)));
    // A source from the future is compared against the present, less a grace.
    assert!(thumb_is_fresh(at(5000), Some(at(995)), at(1000)));
    assert!(!thumb_is_fresh(at(5000), Some(at(994)), at(1000)));
    assert!(thumb_is_fresh(at(0), Some(at(0)), at(i64::MIN)));
    assert!(!thumb_is_fresh(at(0), Some(at(-1)), at(i64::MIN)));
}

#[test]
fn modification_times_default_to_the_epoch() {
    assert_eq!(file_mtime(None), at(0));
    assert_eq!(file_mtime(Some(at(7))), at(7));
    assert_eq!(mtime_secs(at(7)), 7);
    assert_eq!(mtime_secs(at(-7)), 0);
    assert_eq!(mtime_secs(Timestamp { secs: -1, nanos: 999 }), 0);
}

#[test]
fn the_gate_leaves_what_needs_no_work() {
    assert_eq!(open_gate(&None), Gate::Leave);
    assert_eq!(open_gate(&Some(observed("a.txt", 10, None, None))), Gate::Leave);
    assert_eq!(open_gate(&Some(observed("a.jpg", 10, Some(20), meta(None, true)))), Gate::Leave);
    let mut empty = observed("a.jpg", 10, None, None);
    empty.size = 0;
    assert_eq!(open_gate(&Some(empty)), Gate::Leave);
    // Long quiet: no waiting.
    assert_eq!(open_gate(&Some(observed("a.jpg", 994, None, None))), Gate::Go);
    assert_eq!(open_gate(&Some(observed("a.jpg", 10, Some(20), None))), Gate::Go);
    let last = Sample { size: 10, modified: at(995) };
    assert_eq!(
        open_gate(&Some(observed("a.jpg", 995, None, None))),
        Gate::Wait { last, taken: 0 }
    );
    let last = Sample { size: 10, modified: at(2000) };
    assert_eq!(
        open_gate(&Some(observed("a.jpg", 2000, None, None))),
        Gate::Wait { last, taken: 0 }
    );
}

#[test]
fn a_file_goes_ahead_when_two_samples_agree() {
    let first = Sample { size: 1, modified: at(1) };
    let grown = Sample { size: 2, modified: at(1) };
    let touched = Sample { size: 2, modified: at(2) };
    assert_eq!(await_stable(first, 0, Some(first)), Gate::Go);
    assert_eq!(await_stable(first, 0, None), Gate::Leave);
    assert_eq!(await_stable(first, 0, Some(grown)), Gate::Wait { last: grown, taken: 1 });
    assert_eq!(await_stable(grown, 1, Some(touched)), Gate::Wait { last: touched, taken: 2 });
    assert_eq!(await_stable(touched, 2, Some(touched)), Gate::Go);
    assert_eq!(await_stable(touched, 2, Some(first)), Gate::Leave);
    assert_eq!(STABILITY_MAX_SAMPLES, 3);
}

#[test]
fn the_work_on_a_file_follows_from_what_is_out_of_date() {
    assert_eq!(process_create(&None), CreatePlan::Nothing);
    let plan = |o: Observed| process_create(&Some(o));
    assert_eq!(plan(observed("a.txt", 1, None, None)), CreatePlan::Nothing);
    assert_eq!(plan(observed("a.jpg", 1, Some(2), meta(None, true))), CreatePlan::Nothing);
    assert_eq!(plan(observed("a.jpg", 1, Some(2), None)), CreatePlan::MeasureImage);
    assert_eq!(plan(observed("a.mp4", 1, Some(2), meta(None, false))), CreatePlan::ProbeVideo);
    assert_eq!(plan(observed("a.jpg", 3, Some(2), meta(None, true))), CreatePlan::MakeImageThumb);
    assert_eq!(plan(observed("a.mov", 3, None, None)), CreatePlan::MakeVideoThumb);
}

#[test]
fn the_outcome_of_work_is_recorded() {
    let row = |outcome: Outcome| match update_metadata("a/b.jpg", outcome, 42) {
        Some(Write::SetMetadata { photo, meta }) => {
            assert_eq!(photo, "a/b.jpg");
            Some(meta)
        }
        Some(other) => panic!("unexpected change {other:?}"),
        None => None,
    };
    assert_eq!(
        row(Outcome::Image(Some((3, 4)))),
        Some(PhotoMeta { width: 3, height: 4, duration: None, modified: 42, probed: true })
    );
    assert_eq!(row(Outcome::Image(None)), None);
    let info = Some(VideoFacts { width: 5, height: 6, duration: Some(7) });
    assert_eq!(
        row(Outcome::Video { thumb: true, info }),
        Some(PhotoMeta { width: 5, height: 6, duration: Some(7), modified: 42, probed: true })
    );
    // A video that could not be probed, or has no thumbnail, is tried again.
    assert_eq!(row(Outcome::Video { thumb: true, info: None }), None);
    assert_eq!(row(Outcome::Video { thumb: false, info }), None);
    // Recorded work settles.
    let done = row(Outcome::Video {
        thumb: true,
        info: Some(VideoFacts { width: 1, height: 1, duration: None }),
    });
    assert_eq!(process_create(&Some(observed("a.mp4", 1, Some(2), done))), CreatePlan::Nothing);
}

#[test]
fn concurrency_is_clamped() {
    assert_eq!(worker_concurrency(0, None), 4);
    assert_eq!(worker_concurrency(0, Some(1)), 2);
    assert_eq!(worker_concurrency(0, Some(6)), 6);
    assert_eq!(worker_concurrency(0, Some(64)), 8);
    assert_eq!(worker_concurrency(1, Some(64)), 1);
    assert_eq!(worker_concurrency(100, Some(1)), 32);
}

#[test]
fn a_photo_in_the_album_root_clears_the_root_cover() {
    let plan = process_delete("x.jpg");
    let folders: Vec<String> = plan
        .writes
        .iter()
        .map(|w| match w {
            Write::DeleteCoverIfMatches { folder, .. } => format!("cover of {folder:?}"),
            Write::DeleteCover { folder } => format!("cover {folder}"),
            Write::DeleteMetadata { photo } => format!("row {photo}"),
            other => panic!("unexpected change {other:?}"),
        })
        .collect();
    assert_eq!(
        folders,
        vec!["cover of \"\"", "cover of \"\"", "cover x.jpg", "row x.jpg"]
    );
}

#[test]
fn a_scan_finds_media_and_passes_over_the_rest() {
    let entry = |name: &str, kind: EntryKind| DirEntry { name: name.to_string(), kind };
    let mut walk = scan_existing();
    assert_eq!(walk.next(), Some(String::new()));
    let found = walk.walk_dir(Some(vec![
        entry("a.jpg", EntryKind::File),
        entry("link.png", EntryKind::Link(LinkTarget::File)),
        entry("gone.png", EntryKind::Link(LinkTarget::Missing)),
        entry("loop", EntryKind::Link(LinkTarget::Dir)),
        entry("odd\\name.mp4", EntryKind::File),
        entry("sub", EntryKind::Dir),
        entry("thumbs", EntryKind::Dir),
        entry(".git", EntryKind::Dir),
        entry("notes.txt", EntryKind::File),
        entry("odd.jpg", EntryKind::Unknown),
    ]));
    let paths: Vec<&str> = found.iter().map(|c| c.path.as_str()).collect();
    assert_eq!(paths, vec!["a.jpg", "link.png", "odd/name.mp4"]);
    assert_eq!(walk.next(), Some("sub".to_string()));
    let below = walk.walk_dir(Some(vec![entry("b.jpg", EntryKind::File)]));
    assert_eq!(below[0].path, "sub/b.jpg");
    assert_eq!(below[0].name, "b.jpg");
    assert_eq!(walk.next(), None);
}

#[test]
fn a_scan_never_starts_in_thumbnails() {
    assert!(scan_subtree("").is_none());
    assert!(scan_subtree("a/thumbs").is_none());
    assert!(scan_subtree("thumbs/b").is_none());
    let mut walk = scan_subtree("a/b").unwrap();
    assert_eq!(walk.next(), Some("a/b".to_string()));
    assert_eq!(walk.walk_dir(None).len(), 0);
    assert_eq!(walk.next(), None);
    // A separator at the end is not doubled.
    let mut walk = scan_subtree("a/b/").unwrap();
    let photo = DirEntry { name: "c.jpg".to_string(), kind: EntryKind::File };
    let found = walk.walk_dir(Some(vec![photo]));
    assert_eq!(found[0].path, "a/b/c.jpg");
}

#[test]
fn a_scan_queues_only_what_is_out_of_date() {
    let stale = scan_job("a/b.jpg", &observed("b.jpg", 5, Some(4), meta(None, true)));
    assert!(matches!(stale, Some(ThumbJob::Create { rel_path }) if rel_path == "a/b.jpg"));
    assert!(scan_job("a/b.jpg", &observed("b.jpg", 5, Some(6), meta(None, true))).is_none());
    assert!(scan_job("a/b.mp4", &observed("b.mp4", 5, Some(6), meta(None, false))).is_some());
}
