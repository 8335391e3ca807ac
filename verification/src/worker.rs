//! The decisions of the thumbnail worker.
//!
//! The worker waits for files to settle, makes thumbnails, records what it
//! learned, and cleans up after deletions. Everything it decides is here, as
//! functions of what was observed; the waiting and the file access are left to
//! the caller.

use crate::db;
use crate::db::Change;
use crate::db::PhotoMeta;
use crate::db::Tables;
use crate::db::Write;
use crate::path;
use crate::text;
use crate::util;
use vstd::prelude::*;

verus! {

/// Two samples of a file this far apart must be identical for the file to count
/// as stable.
pub const STABILITY_INTERVAL_MILLIS: u64 = 300;

/// The most samples taken before a job is deferred.
pub const STABILITY_MAX_SAMPLES: u32 = 3;

/// Grace, in seconds, for a source whose modification time is in the future.
pub const UNTRUSTED_MTIME_GRACE: i64 = 5;

/// A file modified longer ago than this many seconds is not an upload in
/// flight.
pub const STABILITY_SKIP_AGE: i64 = 5;

/// Capacity of the job queue.
pub const JOB_QUEUE_CAPACITY: usize = 1024;

/// Upper bound on jobs that wait for their file to settle at once.
pub const PREPASS_CONCURRENCY: usize = 256;

/// Work for the thumbnail worker.
#[derive(Debug, Clone)]
pub enum ThumbJob {
    Create { rel_path: String },
    Delete { rel_path: String },
}

/// An instant: whole seconds since the epoch, and the nanoseconds after them.
#[derive(Debug, Clone, Copy, PartialEq, Eq, Structural)]
pub struct Timestamp {
    pub secs: i64,
    pub nanos: u32,
}

impl Timestamp {
    /// Nanoseconds since the epoch.
    pub open spec fn instant(self) -> int {
        self.secs * 1_000_000_000 + self.nanos
    }

    /// Whether the nanoseconds are less than a second.
    pub open spec fn wf(self) -> bool {
        self.nanos < 1_000_000_000
    }

    /// Whether this instant is at or after `other`.
    pub fn at_or_after(self, other: Timestamp) -> (r: bool)
        requires
            self.wf(),
            other.wf(),
        ensures
            r == (self.instant() >= other.instant()),
    {
        self.secs > other.secs || (self.secs == other.secs && self.nanos >= other.nanos)
    }

    /// Whether this instant is more than `secs` seconds after `other`.
    pub fn is_past(self, other: Timestamp, secs: i64) -> (r: bool)
        requires
            self.wf(),
            other.wf(),
        ensures
            r == (self.instant() - other.instant() > secs * 1_000_000_000),
    {
        let gap: i128 = self.secs as i128 - other.secs as i128;
        let wanted: i128 = secs as i128;
        gap > wanted || (gap == wanted && self.nanos > other.nanos)
    }
}

/// The modification time of a file, the epoch where the platform has none.
pub open spec fn known_time(modified: Option<Timestamp>) -> Timestamp {
    match modified {
        Some(t) => t,
        None => Timestamp { secs: 0, nanos: 0 },
    }
}

/// A modification time in whole seconds since the epoch, zero where it is earlier.
pub open spec fn whole_seconds(modified: Timestamp) -> int {
    if modified.secs > 0 {
        modified.secs as int
    } else {
        0
    }
}

/// The modification time of a file, the epoch where the platform has none.
pub fn file_mtime(modified: Option<Timestamp>) -> (r: Timestamp)
    ensures
        r == match modified {
            Some(t) => t,
            None => Timestamp { secs: 0, nanos: 0 },
        },
        r == known_time(modified),
{
    match modified {
        Some(t) => t,
        None => Timestamp { secs: 0, nanos: 0 },
    }
}

/// A modification time in whole seconds since the epoch, zero where it is
/// earlier.
pub fn mtime_secs(modified: Timestamp) -> (r: i64)
    ensures
        r == if modified.secs > 0 {
            modified.secs as int
        } else {
            0
        },
        r == whole_seconds(modified),
{
    if modified.secs > 0 {
        modified.secs
    } else {
        0
    }
}

/// How many thumbnails may be made at once: what is configured, within bounds,
/// or where that is zero the number of cores, within tighter bounds.
pub open spec fn concurrency(threads: u32, available: Option<usize>) -> int {
    let cores = match available {
        Some(n) => n as int,
        None => 4,
    };
    if threads == 0 {
        if cores < 2 {
            2
        } else if cores > 8 {
            8
        } else {
            cores
        }
    } else if threads > 32 {
        32
    } else {
        threads as int
    }
}

/// How many thumbnails may be made at once.
pub fn worker_concurrency(threads: u32, available: Option<usize>) -> (r: usize)
    ensures
        r == concurrency(threads, available),
        1 <= r <= 32,
{
    let cores: usize = match available {
        Some(n) => n,
        None => 4,
    };
    if threads == 0 {
        if cores < 2 {
            2
        } else if cores > 8 {
            8
        } else {
            cores
        }
    } else if threads > 32 {
        32
    } else {
        threads as usize
    }
}

/// What the thumbnail of a source must not be older than. A source from the
/// future says nothing, so the present, less a grace, stands in for it.
pub open spec fn reference_time(src: Timestamp, now: Timestamp) -> Timestamp {
    if src.instant() > now.instant() {
        if now.secs - UNTRUSTED_MTIME_GRACE < i64::MIN {
            Timestamp { secs: 0, nanos: 0 }
        } else {
            Timestamp { secs: (now.secs - UNTRUSTED_MTIME_GRACE) as i64, nanos: now.nanos }
        }
    } else {
        src
    }
}

/// Whether a thumbnail is up to date: it exists, and is at least as new as its
/// source.
pub open spec fn is_fresh(src: Timestamp, thumb: Option<Timestamp>, now: Timestamp) -> bool {
    thumb is Some && thumb->0.instant() >= reference_time(src, now).instant()
}

/// Whether an optional instant is well formed.
pub open spec fn opt_wf(t: Option<Timestamp>) -> bool {
    t is Some ==> t->0.wf()
}

/// Whether the thumbnail of a source modified at `src` is up to date.
pub fn thumb_is_fresh(src: Timestamp, thumb: Option<Timestamp>, now: Timestamp) -> (r: bool)
    requires
        src.wf(),
        now.wf(),
        opt_wf(thumb),
    ensures
        r == is_fresh(src, thumb, now),
{
    let reference = if !now.at_or_after(src) {
        match now.secs.checked_sub(UNTRUSTED_MTIME_GRACE) {
            Some(secs) => Timestamp { secs, nanos: now.nanos },
            None => Timestamp { secs: 0, nanos: 0 },
        }
    } else {
        src
    };
    match thumb {
        Some(t) => t.at_or_after(reference),
        None => false,
    }
}

/// Whether a metadata row still needs writing: there is none, or it is that of a
/// video that was never probed. A video without a duration is settled once a
/// probe has answered.
pub open spec fn lacks_metadata(meta: Option<PhotoMeta>, name: Seq<char>) -> bool {
    match meta {
        None => true,
        Some(meta) => util::video_name(name) && !meta.probed,
    }
}

/// Whether a metadata row still needs writing.
pub fn metadata_incomplete(meta: Option<PhotoMeta>, fname: &str) -> (r: bool)
    ensures
        r == lacks_metadata(meta, fname@),
{
    match meta {
        None => true,
        Some(meta) => util::is_video_file(fname) && !meta.probed,
    }
}

/// What was observed of a source file and its thumbnail.
pub struct Observed {
    /// The name of the source.
    pub name: String,
    /// Its size in bytes.
    pub size: u64,
    /// When it was last modified.
    pub modified: Timestamp,
    /// When its thumbnail was last modified, where there is one.
    pub thumb: Option<Timestamp>,
    /// Its metadata row.
    pub row: Option<PhotoMeta>,
    /// The time of the observation.
    pub now: Timestamp,
}

impl Observed {
    /// Whether the instants are well formed.
    pub open spec fn wf(&self) -> bool {
        self.modified.wf() && self.now.wf() && opt_wf(self.thumb)
    }

    /// Whether the thumbnail is up to date.
    pub open spec fn thumb_fresh(&self) -> bool {
        is_fresh(self.modified, self.thumb, self.now)
    }

    /// Whether anything is out of date.
    pub open spec fn needs_work(&self) -> bool {
        util::media_name(self.name@) && !(self.thumb_fresh() && !lacks_metadata(
            self.row,
            self.name@,
        ))
    }

    /// Whether anything is out of date.
    pub fn out_of_date(&self) -> (r: bool)
        requires
            self.wf(),
        ensures
            r == self.needs_work(),
    {
        util::is_media_file(&self.name) && !(thumb_is_fresh(self.modified, self.thumb, self.now)
            && !metadata_incomplete(self.row, &self.name))
    }
}

/// A sample of a file: its size and modification time.
#[derive(Debug, Clone, Copy, PartialEq, Eq, Structural)]
pub struct Sample {
    pub size: u64,
    pub modified: Timestamp,
}

/// What to do with a file that is waiting to settle.
#[derive(Debug, Clone, Copy, PartialEq, Eq, Structural)]
pub enum Gate {
    /// Nothing to do now: it is gone, up to date, empty, or still changing. A
    /// later event brings it back.
    Leave,
    /// It is settled and needs work.
    Go,
    /// Take a sample after [`STABILITY_INTERVAL_MILLIS`].
    Wait { last: Sample, taken: u32 },
}

/// What to do with a file when its event arrives.
pub open spec fn gate_opened(observed: Option<Observed>) -> Gate {
    match observed {
        None => Gate::Leave,
        Some(o) => if !o.needs_work() || o.size == 0 {
            Gate::Leave
        } else if o.now.instant() - o.modified.instant() > STABILITY_SKIP_AGE * 1_000_000_000 {
            Gate::Go
        } else {
            Gate::Wait { last: Sample { size: o.size, modified: o.modified }, taken: 0 }
        },
    }
}

/// What to do with a waiting file after another sample.
pub open spec fn gate_sampled(last: Sample, taken: u32, sample: Option<Sample>) -> Gate {
    match sample {
        None => Gate::Leave,
        Some(s) => if s == last {
            Gate::Go
        } else if taken + 1 < STABILITY_MAX_SAMPLES {
            Gate::Wait { last: s, taken: (taken + 1) as u32 }
        } else {
            Gate::Leave
        },
    }
}

/// Decides what to do with a file when its event arrives; nothing is observed
/// where it has vanished. A file that is up to date is left at once, an empty
/// one until it is written, and one that has been quiet for long goes ahead
/// without waiting.
pub fn open_gate(observed: &Option<Observed>) -> (r: Gate)
    requires
        observed is Some ==> observed->0.wf(),
    ensures
        r == gate_opened(*observed),
{
    match observed {
        None => Gate::Leave,
        Some(o) => {
            if !o.out_of_date() || o.size == 0 {
                Gate::Leave
            } else if o.now.is_past(o.modified, STABILITY_SKIP_AGE) {
                Gate::Go
            } else {
                Gate::Wait { last: Sample { size: o.size, modified: o.modified }, taken: 0 }
            }
        },
    }
}

/// Decides what to do with a waiting file after another sample; there is none
/// where it has vanished.
pub fn await_stable(last: Sample, taken: u32, sample: Option<Sample>) -> (r: Gate)
    requires
        taken < STABILITY_MAX_SAMPLES,
    ensures
        r == gate_sampled(last, taken, sample),
{
    match sample {
        None => Gate::Leave,
        Some(s) => {
            if s == last {
                Gate::Go
            } else if taken + 1 < STABILITY_MAX_SAMPLES {
                Gate::Wait { last: s, taken: taken + 1 }
            } else {
                Gate::Leave
            }
        },
    }
}

/// What a probe found out about a video. The duration is in whole seconds.
#[derive(Debug, Clone, Copy, PartialEq, Eq, Structural)]
pub struct VideoFacts {
    pub width: u32,
    pub height: u32,
    pub duration: Option<u64>,
}

/// The work a file calls for.
#[derive(Debug, Clone, Copy, PartialEq, Eq, Structural)]
pub enum CreatePlan {
    Nothing,
    /// The thumbnail is up to date, but the metadata row of the image is not.
    MeasureImage,
    /// The thumbnail is up to date, but the metadata row of the video is not.
    ProbeVideo,
    /// Make the thumbnail of an image.
    MakeImageThumb,
    /// Make the thumbnail of a video.
    MakeVideoThumb,
}

/// The work a file calls for; nothing is observed where it has vanished.
pub open spec fn create_plan(observed: Option<Observed>) -> CreatePlan {
    match observed {
        None => CreatePlan::Nothing,
        Some(o) => if !o.needs_work() {
            CreatePlan::Nothing
        } else if util::image_name(o.name@) {
            if o.thumb_fresh() {
                CreatePlan::MeasureImage
            } else {
                CreatePlan::MakeImageThumb
            }
        } else if o.thumb_fresh() {
            CreatePlan::ProbeVideo
        } else {
            CreatePlan::MakeVideoThumb
        },
    }
}

/// Decides what work a file calls for, once more, right before it is done: the
/// file may have changed since it was let through, or another job may have done
/// the work.
pub fn process_create(observed: &Option<Observed>) -> (r: CreatePlan)
    requires
        observed is Some ==> observed->0.wf(),
    ensures
        r == create_plan(*observed),
{
    match observed {
        None => CreatePlan::Nothing,
        Some(o) => {
            if !o.out_of_date() {
                return CreatePlan::Nothing;
            }
            let fresh = thumb_is_fresh(o.modified, o.thumb, o.now);
            if util::is_image_file(&o.name) {
                if fresh {
                    CreatePlan::MeasureImage
                } else {
                    CreatePlan::MakeImageThumb
                }
            } else if fresh {
                CreatePlan::ProbeVideo
            } else {
                CreatePlan::MakeVideoThumb
            }
        },
    }
}

/// How the work on a file came out.
#[derive(Debug, Clone, Copy, PartialEq, Eq)]
pub enum Outcome {
    /// The dimensions of an image, where they could be had.
    Image(Option<(u32, u32)>),
    /// Whether the thumbnail of a video stands, and what a probe found out.
    Video { thumb: bool, info: Option<VideoFacts> },
}

/// The metadata row the outcome calls for, if any. A video that could not be
/// probed is left without one, so that it is tried again.
pub open spec fn recorded(outcome: Outcome, modified: i64) -> Option<PhotoMeta> {
    match outcome {
        Outcome::Image(Some((width, height))) => Some(
            PhotoMeta { width, height, duration: None, modified, probed: true },
        ),
        Outcome::Image(None) => None,
        Outcome::Video { thumb: true, info: Some(info) } => Some(
            PhotoMeta {
                width: info.width,
                height: info.height,
                duration: info.duration,
                modified,
                probed: true,
            },
        ),
        _ => None,
    }
}

/// The change that records the outcome of the work on `rel`.
pub open spec fn recording(rel: Seq<char>, outcome: Outcome, modified: i64) -> Option<Change> {
    match recorded(outcome, modified) {
        Some(meta) => Some(Change::SetMetadata { photo: rel, meta }),
        None => None,
    }
}

/// The change that records the outcome of the work on `rel_path`, whose source
/// was modified at `modified`.
pub fn update_metadata(rel_path: &str, outcome: Outcome, modified: i64) -> (r: Option<Write>)
    ensures
        match recorded(outcome, modified) {
            Some(meta) => r is Some && r->0@ == (Change::SetMetadata { photo: rel_path@, meta }),
            None => r is None,
        },
        match recording(rel_path@, outcome, modified) {
            Some(change) => r is Some && r->0@ == change,
            None => r is None,
        },
{
    let meta = match outcome {
        Outcome::Image(Some((width, height))) => {
            PhotoMeta { width, height, duration: None, modified, probed: true }
        },
        Outcome::Image(None) => return None,
        Outcome::Video { thumb, info } => {
            if !thumb {
                return None;
            }
            match info {
                Some(info) => PhotoMeta {
                    width: info.width,
                    height: info.height,
                    duration: info.duration,
                    modified,
                    probed: true,
                },
                None => return None,
            }
        },
    };
    Some(Write::SetMetadata { photo: rel_path.to_owned(), meta })
}

/// A file whose work has been recorded, and whose thumbnail is up to date, needs
/// no more work: it settles.
pub proof fn law_recorded_work_settles(o: Observed, outcome: Outcome, modified: i64)
    requires
        o.thumb_fresh(),
        o.row == recorded(outcome, modified),
        recorded(outcome, modified) is Some,
    ensures
        !o.needs_work(),
        create_plan(Some(o)) is Nothing,
{
}

/// The name of what was deleted, empty where the path has none.
pub open spec fn deleted_name(rel: Seq<char>) -> Seq<char> {
    match path::file_name_of(rel) {
        Some(name) => name,
        None => Seq::<char>::empty(),
    }
}

/// Forgetting the cover of `folder` if it is `image`.
pub open spec fn forget_cover(folder: Seq<char>, image: Seq<char>) -> Change {
    Change::DeleteCoverIfMatches { folder, image }
}

/// How many proper ancestors of a path are neither the root nor its parent.
pub open spec fn inner_ancestors(rel: Seq<char>) -> nat {
    let n = path::segments(rel).len();
    if n >= 2 {
        (n - 2) as nat
    } else {
        0
    }
}

/// The folders whose cover a photo may be: its parent, the album root, and the
/// folders between.
pub open spec fn covered_folders(rel: Seq<char>) -> Seq<Seq<char>> {
    let parent = match path::parent_of(rel) {
        Some(p) => seq![p],
        None => Seq::<Seq<char>>::empty(),
    };
    parent.push(Seq::<char>::empty()) + Seq::new(
        inner_ancestors(rel),
        |i: int| text::join(path::segments(rel).take(i + 1), '/'),
    )
}

/// The changes that clean up after `rel` was deleted: a photo, or else a folder
/// with all it held.
pub open spec fn deletion(rel: Seq<char>) -> Seq<Change> {
    let first = if util::media_name(deleted_name(rel)) {
        covered_folders(rel).map_values(|f: Seq<char>| forget_cover(f, rel))
    } else {
        seq![
            Change::DeleteMetadataUnder { folder: rel },
            Change::DeleteCoversUnder { folder: rel },
        ]
    };
    first + seq![Change::DeleteCover { folder: rel }, Change::DeleteMetadata { photo: rel }]
}

/// Whether a thumbnail goes with `rel` when it is deleted.
pub open spec fn takes_thumb(rel: Seq<char>) -> bool {
    util::media_name(deleted_name(rel))
}

/// What a deletion calls for.
pub struct DeletePlan {
    /// Whether a thumbnail goes too.
    pub remove_thumb: bool,
    /// The changes to the tables.
    pub writes: Vec<Write>,
}

/// Decides how to clean up after `rel_path` was deleted. The files of a folder
/// are not reported one by one, so their rows go by prefix.
pub fn process_delete(rel_path: &str) -> (r: DeletePlan)
    ensures
        r.remove_thumb == util::media_name(deleted_name(rel_path@)),
        r.remove_thumb == takes_thumb(rel_path@),
        db::changes(r.writes@) == deletion(rel_path@),
{
    let name = match path::file_name(rel_path) {
        Some(name) => name,
        None => String::new(),
    };
    proof {
        assert(name@ =~= deleted_name(rel_path@));
    }
    let remove_thumb = util::is_media_file(&name);
    let mut writes: Vec<Write> = if remove_thumb {
        forget_covers(rel_path)
    } else {
        let mut writes: Vec<Write> = Vec::new();
        writes.push(Write::DeleteMetadataUnder { folder: rel_path.to_owned() });
        writes.push(Write::DeleteCoversUnder { folder: rel_path.to_owned() });
        writes
    };
    let ghost first = db::changes(writes@);
    writes.push(Write::DeleteCover { folder: rel_path.to_owned() });
    writes.push(Write::DeleteMetadata { photo: rel_path.to_owned() });
    proof {
        assert(db::changes(writes@) =~= deletion(rel_path@));
    }
    DeletePlan { remove_thumb, writes }
}

fn forget_covers(rel_path: &str) -> (r: Vec<Write>)
    ensures
        db::changes(r@) == covered_folders(rel_path@).map_values(
            |f: Seq<char>| forget_cover(f, rel_path@),
        ),
{
    let ghost forget = |f: Seq<char>| forget_cover(f, rel_path@);
    let ghost parts_view = path::segments(rel_path@);
    let mut writes: Vec<Write> = Vec::new();
    let ghost mut done: Seq<Seq<char>> = Seq::empty();
    if let Some(parent) = path::parent(rel_path) {
        proof {
            done = done.push(parent@);
        }
        writes.push(Write::DeleteCoverIfMatches { folder: parent, image: rel_path.to_owned() });
    }
    let root: String = String::new();
    proof {
        assert(root@ =~= Seq::<char>::empty());
        done = done.push(root@);
    }
    writes.push(Write::DeleteCoverIfMatches { folder: root, image: rel_path.to_owned() });
    let ghost head = done;
    let parts = text::split_chars(&text::to_chars(rel_path), '/');
    let mut i: usize = 1;
    proof {
        assert(db::changes(writes@) =~= head.map_values(forget));
        assert(text::views(parts@) == parts_view);
        assert(head =~= (match path::parent_of(rel_path@) {
            Some(p) => seq![p],
            None => Seq::<Seq<char>>::empty(),
        }).push(Seq::<char>::empty()));
        assert(head + Seq::new(
            0nat,
            |j: int| text::join(parts_view.take(j + 1), '/'),
        ) =~= head);
    }
    while i < parts.len() && i + 1 < parts.len()
        invariant
            1 <= i <= parts@.len() || i == 1,
            i == 1 || i + 1 <= parts@.len(),
            text::views(parts@) == parts_view,
            forget == (|f: Seq<char>| forget_cover(f, rel_path@)),
            db::changes(writes@) == (head + Seq::new(
                (i - 1) as nat,
                |j: int| text::join(parts_view.take(j + 1), '/'),
            )).map_values(forget),
        decreases parts.len() - i,
    {
        let ghost before = writes@;
        let ghost folders = head + Seq::new(
            (i - 1) as nat,
            |j: int| text::join(parts_view.take(j + 1), '/'),
        );
        let front = path::copy_pieces(&parts, 0, i);
        proof {
            assert(text::views(parts@).subrange(0, i as int) =~= parts_view.take(i as int));
        }
        let folder = text::from_chars(&text::join_chars(&front, '/'));
        let ghost f = folder@;
        writes.push(Write::DeleteCoverIfMatches { folder, image: rel_path.to_owned() });
        proof {
            assert(f == text::join(parts_view.take(i as int), '/'));
            let longer = head + Seq::new(
                i as nat,
                |j: int| text::join(parts_view.take(j + 1), '/'),
            );
            assert(longer =~= folders.push(f));
            assert(db::changes(writes@) =~= db::changes(before).push(forget_cover(f, rel_path@)));
            assert(longer.map_values(forget) =~= folders.map_values(forget).push(forget(f)));
        }
        i = i + 1;
    }
    proof {
        assert(parts@.len() == parts_view.len());
        assert((i - 1) as nat == inner_ancestors(rel_path@));
    }
    writes
}

proof fn lemma_forgetting(t: Tables, folders: Seq<Seq<char>>, image: Seq<char>)
    ensures
        ({
            let after = db::applied_all(
                t,
                folders.map_values(|f: Seq<char>| forget_cover(f, image)),
            );
            &&& after.metadata == t.metadata
            &&& forall|g: Seq<char>| #[trigger]
                after.covers.contains_key(g) <==> t.covers.contains_key(g) && !(t.covers[g] == image
                    && folders.contains(g))
            &&& forall|g: Seq<char>| #[trigger]
                after.covers.contains_key(g) ==> after.covers[g] == t.covers[g]
        }),
    decreases folders.len(),
{
    let forget = |f: Seq<char>| forget_cover(f, image);
    let list = folders.map_values(forget);
    if folders.len() > 0 {
        let front = folders.drop_last();
        lemma_forgetting(t, front, image);
        assert(list.drop_last() =~= front.map_values(forget));
        assert forall|g: Seq<char>| folders.contains(g) <==> #[trigger] front.contains(g) || g
            == folders.last() by {
            if folders.contains(g) {
                let i = choose|i: int| 0 <= i < folders.len() && folders[i] == g;
                if i < front.len() {
                    assert(front[i] == g);
                }
            }
            if front.contains(g) {
                let i = choose|i: int| 0 <= i < front.len() && front[i] == g;
                assert(folders[i] == g);
            }
            assert(folders[folders.len() - 1] == folders.last());
        }
        let before = db::applied_all(t, front.map_values(forget));
        let after = db::applied_all(t, list);
        assert(after == db::applied(before, forget_cover(folders.last(), image)));
        assert forall|g: Seq<char>| #[trigger] after.covers.contains_key(g) <==> t.covers.contains_key(
            g,
        ) && !(t.covers[g] == image && folders.contains(g)) by {
            assert(before.covers.contains_key(g) <==> t.covers.contains_key(g) && !(t.covers[g]
                == image && front.contains(g)));
        }
        assert forall|g: Seq<char>| #[trigger] after.covers.contains_key(g) implies after.covers[g]
            == t.covers[g] by {
            assert(before.covers.contains_key(g));
        }
    }
}

/// What is left of the tables after a photo was deleted.
proof fn lemma_photo_deletion(t: Tables, rel: Seq<char>)
    requires
        util::media_name(deleted_name(rel)),
    ensures
        ({
            let after = db::applied_all(t, deletion(rel));
            &&& after.metadata == t.metadata.remove(rel)
            &&& forall|g: Seq<char>| #[trigger]
                after.covers.contains_key(g) <==> t.covers.contains_key(g) && g != rel && !(
                t.covers[g] == rel && covered_folders(rel).contains(g))
            &&& forall|g: Seq<char>| #[trigger]
                after.covers.contains_key(g) ==> after.covers[g] == t.covers[g]
        }),
{
    let first = covered_folders(rel).map_values(|f: Seq<char>| forget_cover(f, rel));
    let a = Change::DeleteCover { folder: rel };
    let b = Change::DeleteMetadata { photo: rel };
    lemma_forgetting(t, covered_folders(rel), rel);
    db::lemma_applied_append(t, first, seq![a, b]);
    let middle = db::applied_all(t, first);
    lemma_two_changes(middle, a, b);
}

proof fn lemma_two_changes(t: Tables, a: Change, b: Change)
    ensures
        db::applied_all(t, seq![a, b]) == db::applied(db::applied(t, a), b),
{
    assert(seq![a, b].drop_last() =~= seq![a]);
    assert(seq![a].drop_last() =~= Seq::<Change>::empty());
    assert(db::applied_all(t, Seq::<Change>::empty()) == t);
    assert(db::applied_all(t, seq![a]) == db::applied(t, a));
}

/// The parent of a canonical path is its segments but the last.
proof fn lemma_canonical_parent(rel: Seq<char>)
    requires
        util::is_canonical(rel),
        rel.len() > 0,
        rel != path::dot(),
    ensures
        path::parent_of(rel) == Some(text::join(path::segments(rel).drop_last(), '/')),
{
    util::lemma_canonical_segments(rel);
    path::lemma_plain_path(rel);
}

/// Every folder that holds a photo is one of those whose cover is checked when
/// it is deleted.
proof fn lemma_ancestors_are_covered(rel: Seq<char>, f: Seq<char>)
    requires
        util::is_canonical(rel),
        util::is_canonical(f),
        rel.len() > 0,
        rel != path::dot(),
        util::ancestor(f, rel),
        f != rel,
    ensures
        covered_folders(rel).contains(f),
{
    let all = covered_folders(rel);
    let parts = path::segments(rel);
    lemma_canonical_parent(rel);
    assert(all[1] == Seq::<char>::empty());
    if f.len() == 0 {
        assert(f =~= Seq::<char>::empty());
    } else {
        util::law_ancestors_by_segments(f, rel);
        let k = path::segments(f).len() as int;
        text::lemma_split_pieces(f, '/');
        text::lemma_join_split(f, '/');
        text::lemma_join_split(rel, '/');
        assert(path::segments(f) =~= parts.take(k));
        if k == parts.len() {
            assert(parts.take(k) =~= parts);
        } else if k == parts.len() - 1 {
            assert(parts.take(k) =~= parts.drop_last());
            assert(all[0] == f);
        } else {
            assert(all[2 + (k - 1)] == text::join(parts.take(k), '/'));
        }
    }
}

/// After a photo is deleted no folder that held it has it as its cover, and its
/// metadata is gone.
pub proof fn law_a_deleted_photo_is_forgotten(t: Tables, rel: Seq<char>, f: Seq<char>)
    requires
        util::media_name(deleted_name(rel)),
        util::is_canonical(rel),
        util::is_canonical(f),
        util::ancestor(f, rel),
    ensures
        ({
            let after = db::applied_all(t, deletion(rel));
            &&& !(after.covers.contains_key(f) && after.covers[f] == rel)
            &&& !after.metadata.contains_key(rel)
        }),
{
    lemma_photo_deletion(t, rel);
    lemma_media_path(rel);
    if f != rel {
        lemma_ancestors_are_covered(rel, f);
    }
}

/// A path that ends in a media name names something.
proof fn lemma_media_path(rel: Seq<char>)
    requires
        util::media_name(deleted_name(rel)),
    ensures
        rel.len() > 0,
        rel != path::dot(),
{
    reveal_strlit("jpg");
    reveal_strlit("jpeg");
    reveal_strlit("png");
    reveal_strlit("webp");
    reveal_strlit("mp4");
    reveal_strlit("mov");
    reveal_strlit("avi");
    reveal_strlit("webm");
    reveal_strlit("mkv");
    let nothing = Seq::<char>::empty();
    assert(!util::media_name(nothing)) by {
        text::lemma_split_plain(nothing, '.');
        assert(text::lowercase(nothing).len() == 0) by {
            assert(text::lowercase(nothing) =~= nothing);
        }
    }
    if rel.len() == 0 || rel == path::dot() {
        assert(!rel.contains('/'));
        text::lemma_split_plain(rel, '/');
        assert(seq![rel].drop_first() =~= Seq::<Seq<char>>::empty());
        assert(path::body(seq![rel]) =~= seq![rel]);
        assert(path::file_name_of(rel) is None);
    }
}

/// Deleting a photo changes nothing else: other photos keep their metadata, and
/// every cover that is another image stays.
pub proof fn law_deleting_a_photo_spares_the_rest(t: Tables, rel: Seq<char>, g: Seq<char>)
    requires
        util::media_name(deleted_name(rel)),
        g != rel,
    ensures
        ({
            let after = db::applied_all(t, deletion(rel));
            &&& after.metadata.contains_key(g) == t.metadata.contains_key(g)
            &&& after.metadata[g] == t.metadata[g]
            &&& t.covers.contains_key(g) && t.covers[g] != rel ==> after.covers.contains_key(g)
                && after.covers[g] == t.covers[g]
            &&& after.covers.contains_key(g) ==> t.covers.contains_key(g)
        }),
{
    lemma_photo_deletion(t, rel);
}

/// After a folder is deleted nothing recorded inside it is left, and nothing
/// outside it is touched.
pub proof fn law_a_deleted_folder_is_purged(t: Tables, rel: Seq<char>, g: Seq<char>)
    requires
        !util::media_name(deleted_name(rel)),
    ensures
        ({
            let after = db::applied_all(t, deletion(rel));
            &&& after.metadata.contains_key(g) <==> t.metadata.contains_key(g) && !db::is_under(
                g,
                rel,
            ) && g != rel
            &&& after.covers.contains_key(g) <==> t.covers.contains_key(g) && !db::is_under(
                t.covers[g],
                rel,
            ) && g != rel
            &&& after.metadata.contains_key(g) ==> after.metadata[g] == t.metadata[g]
            &&& after.covers.contains_key(g) ==> after.covers[g] == t.covers[g]
        }),
{
    let a = Change::DeleteMetadataUnder { folder: rel };
    let b = Change::DeleteCoversUnder { folder: rel };
    let c = Change::DeleteCover { folder: rel };
    let d = Change::DeleteMetadata { photo: rel };
    db::lemma_applied_append(t, seq![a, b], seq![c, d]);
    lemma_two_changes(t, a, b);
    let middle = db::applied(db::applied(t, a), b);
    lemma_two_changes(middle, c, d);
}

/// How a wait ends when these samples come in, in order. Without enough samples
/// it goes on waiting.
pub open spec fn gate_after(gate: Gate, samples: Seq<Option<Sample>>) -> Gate
    decreases samples.len(),
{
    if samples.len() == 0 {
        gate
    } else {
        match gate_after(gate, samples.drop_last()) {
            Gate::Wait { last, taken } => gate_sampled(last, taken, samples.last()),
            ended => ended,
        }
    }
}

/// A wait is over after the last sample allowed, however the file behaves.
pub proof fn law_waiting_is_bounded(last: Sample, taken: u32, samples: Seq<Option<Sample>>)
    requires
        taken < STABILITY_MAX_SAMPLES,
    ensures
        gate_after(Gate::Wait { last, taken }, samples) matches Gate::Wait { last: _, taken: t }
            ==> t == taken + samples.len() && t < STABILITY_MAX_SAMPLES,
        samples.len() >= STABILITY_MAX_SAMPLES - taken ==> !(gate_after(
            Gate::Wait { last, taken },
            samples,
        ) is Wait),
    decreases samples.len(),
{
    if samples.len() > 0 {
        law_waiting_is_bounded(last, taken, samples.drop_last());
    }
}

/// A waiting file goes ahead only when a sample equals the one before it: same
/// size and same modification time.
pub proof fn law_only_a_quiet_file_goes_ahead(last: Sample, samples: Seq<Option<Sample>>)
    requires
        samples.len() > 0,
        gate_after(Gate::Wait { last, taken: 0 }, samples) is Go,
        gate_after(Gate::Wait { last, taken: 0 }, samples.drop_last()) is Wait,
    ensures
        samples.last() is Some,
        samples.last()->0 == if samples.len() == 1 {
            last
        } else {
            samples[samples.len() - 2]->0
        },
{
    let front = samples.drop_last();
    if front.len() > 0 {
        assert(gate_after(Gate::Wait { last, taken: 0 }, front) is Wait);
        assert(front.last() == samples[samples.len() - 2]);
    }
}

/// A thumbnail made after its source last changed stays fresh, and one made
/// before is stale: a source that changes later is noticed.
pub proof fn law_a_newer_source_makes_a_thumbnail_stale(
    src: Timestamp,
    thumb: Timestamp,
    now: Timestamp,
)
    requires
        src.instant() <= now.instant(),
    ensures
        is_fresh(src, Some(thumb), now) == (thumb.instant() >= src.instant()),
{
}

/// A source from the future does not make a thumbnail stale that was written
/// within the grace.
pub proof fn law_a_future_source_settles(src: Timestamp, thumb: Timestamp, now: Timestamp)
    requires
        src.instant() > now.instant(),
        now.secs - UNTRUSTED_MTIME_GRACE >= i64::MIN,
        thumb.instant() >= now.instant() - UNTRUSTED_MTIME_GRACE * 1_000_000_000,
    ensures
        is_fresh(src, Some(thumb), now),
{
}

/// When a thumbnail is made: for a media file that has none, or one older than the
/// file. A source from the future is no measure, so there a thumbnail counts as old
/// when it was written before the grace. What is made, measured or probed is an
/// image or a video as the name says. Where the thumbnail stands, work is left only
/// while there is no row, or a video was never probed.
pub proof fn law_when_a_thumbnail_is_made(o: Observed)
    ensures
        ({
            let plan = create_plan(Some(o));
            let makes = plan is MakeImageThumb || plan is MakeVideoThumb;
            let records = plan is MeasureImage || plan is ProbeVideo;
            let is_media = util::image_name(o.name@) || util::video_name(o.name@);
            let written = o.thumb is Some;
            let at = o.thumb->0.instant();
            let source = o.modified.instant();
            let now = o.now.instant();
            let unprobed = o.row is None || (util::video_name(o.name@) && !o.row->0.probed);
            &&& makes <==> is_media && !o.thumb_fresh()
            &&& source <= now ==> (makes <==> is_media && !(written && at >= source))
            &&& source > now && o.now.secs >= i64::MIN + 5 ==> (makes <==> is_media && !(written
                && at >= now - 5_000_000_000))
            &&& records <==> is_media && !makes && unprobed
            &&& plan is Nothing <==> !makes && !records
            &&& o.needs_work() <==> makes || records
            &&& plan is MakeVideoThumb || plan is ProbeVideo ==> util::video_name(o.name@)
            &&& plan is MakeImageThumb || plan is MeasureImage ==> util::image_name(o.name@)
        }),
        create_plan(None) is Nothing,
{
    util::law_images_and_videos_are_disjoint(o.name@);
}

/// What is let through agrees with the plan: a file goes, or waits, exactly
/// where there is work for it and it is not empty. It waits unless it has been
/// quiet for more than five seconds, and what it is compared with is what was seen.
pub proof fn law_what_is_let_through(o: Observed)
    ensures
        ({
            let gate = gate_opened(Some(o));
            let works = !(create_plan(Some(o)) is Nothing) && o.size > 0;
            let quiet = o.now.instant() > o.modified.instant() + 5_000_000_000;
            &&& gate is Leave <==> !works
            &&& gate is Go <==> works && quiet
            &&& gate == (Gate::Wait {
                last: Sample { size: o.size, modified: o.modified },
                taken: 0,
            }) <==> works && !quiet
        }),
        gate_opened(None) is Leave,
{
    util::law_images_and_videos_are_disjoint(o.name@);
}

/// What another sample does to a file that waits: one like the last lets it go, a
/// different one is waited on in its turn, the third different one ends the wait,
/// and so does a file that has gone.
pub proof fn law_what_a_sample_decides(last: Sample, taken: u32, sample: Sample)
    requires
        taken < 3,
    ensures
        gate_sampled(last, taken, None) is Leave,
        sample.size == last.size && sample.modified == last.modified <==> gate_sampled(
            last,
            taken,
            Some(sample),
        ) is Go,
        sample != last && taken < 2 ==> gate_sampled(last, taken, Some(sample)) == (Gate::Wait {
            last: sample,
            taken: (taken + 1) as u32,
        }),
        sample != last && taken == 2 ==> gate_sampled(last, taken, Some(sample)) is Leave,
{
}

/// What is recorded of the work on a file: the dimensions of an image, or of a
/// video whose thumbnail stands and that was probed, with its duration. Nothing is
/// recorded of work that failed.
pub proof fn law_what_is_recorded(
    size: (u32, u32),
    info: VideoFacts,
    thumb: bool,
    modified: i64,
)
    ensures
        recorded(Outcome::Image(None), modified) is None,
        recorded(Outcome::Video { thumb, info: None }, modified) is None,
        recorded(Outcome::Video { thumb: false, info: Some(info) }, modified) is None,
        recorded(Outcome::Image(Some(size)), modified) matches Some(row) && row.width == size.0
            && row.height == size.1 && row.duration is None && row.modified == modified
            && row.probed,
        recorded(Outcome::Video { thumb: true, info: Some(info) }, modified) matches Some(row)
            && row.width == info.width && row.height == info.height && row.duration
            == info.duration && row.modified == modified && row.probed,
{
}

/// How many thumbnails are made at once: as many as configured, up to 32, or else as
/// there are cores, between two and eight, and four where that is not known.
pub proof fn law_how_many_work_at_once(threads: u32, cores: usize)
    ensures
        1 <= threads <= 32 ==> concurrency(threads, Some(cores)) == threads && concurrency(
            threads,
            None,
        ) == threads,
        threads > 32 ==> concurrency(threads, Some(cores)) == 32 && concurrency(threads, None)
            == 32,
        2 <= cores <= 8 ==> concurrency(0, Some(cores)) == cores,
        cores < 2 ==> concurrency(0, Some(cores)) == 2,
        cores > 8 ==> concurrency(0, Some(cores)) == 8,
        concurrency(0, None) == 4,
{
}

/// What was deleted is called by the last name on its path, and a thumbnail goes
/// with it exactly where that is the name of an image or a video.
pub proof fn law_a_deleted_file_takes_its_thumbnail(dir: Seq<char>, name: Seq<char>)
    requires
        !name.contains('/'),
        path::is_plain(name),
        name != path::dot_dot(),
    ensures
        deleted_name(name) == name,
        deleted_name(dir + "/"@ + name) == name,
        takes_thumb(name) <==> util::image_name(name) || util::video_name(name),
        takes_thumb(dir + "/"@ + name) <==> util::image_name(name) || util::video_name(name),
{
    path::lemma_last_name(dir, name);
}

/// Deleting a photo forgets it as the cover of every folder above it, and a deleted
/// folder takes with it what is recorded inside: which of the two it was is told by
/// its name alone.
pub proof fn law_what_a_deletion_does(t: Tables, dir: Seq<char>, name: Seq<char>, g: Seq<char>)
    requires
        !name.contains('/'),
        path::is_plain(name),
        name != path::dot_dot(),
    ensures
        ({
            let rel = dir + "/"@ + name;
            let is_media = util::image_name(name) || util::video_name(name);
            let after = db::applied_all(t, deletion(rel));
            &&& !after.metadata.contains_key(rel) && !after.covers.contains_key(rel)
            &&& is_media && g != rel ==> after.metadata.contains_key(g) == t.metadata.contains_key(
                g,
            )
            &&& !is_media && g != rel ==> (after.metadata.contains_key(g)
                <==> t.metadata.contains_key(g) && !(rel + "/"@).is_prefix_of(g))
            &&& !is_media && g != rel ==> (after.covers.contains_key(g) <==> t.covers.contains_key(g)
                && !(rel + "/"@).is_prefix_of(t.covers[g]))
        }),
{
    let rel = dir + "/"@ + name;
    reveal_strlit("/");
    path::lemma_last_name(dir, name);
    assert(rel + "/"@ =~= rel.push('/'));
    if util::media_name(name) {
        lemma_photo_deletion(t, rel);
    } else {
        law_a_deleted_folder_is_purged(t, rel, g);
        law_a_deleted_folder_is_purged(t, rel, rel);
    }
}

/// The seconds of an instant are those that have passed since the epoch, rounded
/// down, and none before it; a file without a time is as old as the epoch.
pub proof fn law_seconds_are_rounded_down(t: Timestamp)
    requires
        t.wf(),
    ensures
        t.instant() >= 0 ==> whole_seconds(t) * 1_000_000_000 <= t.instant() < (whole_seconds(t)
            + 1) * 1_000_000_000,
        t.instant() < 0 ==> whole_seconds(t) == 0,
        known_time(Some(t)) == t,
        known_time(None).instant() == 0,
{
}

/// What is recorded of a file is read back under its album path, and touches nothing
/// else.
pub proof fn law_what_is_recorded_is_read_back(
    t: Tables,
    rel: Seq<char>,
    outcome: Outcome,
    modified: i64,
    other: Seq<char>,
)
    ensures
        recording(rel, outcome, modified) is Some == recorded(outcome, modified) is Some,
        recording(rel, outcome, modified) matches Some(change) ==> {
            let after = db::applied(t, change);
            &&& after.metadata.contains_key(rel) && Some(after.metadata[rel]) == recorded(
                outcome,
                modified,
            )
            &&& other != rel ==> after.metadata.contains_key(other) == t.metadata.contains_key(
                other,
            ) && after.metadata[other] == t.metadata[other]
            &&& after.covers == t.covers
        },
{
}

/// Instants are told apart to the nanosecond: the seconds decide, and within one
/// second the nanoseconds do.
pub proof fn law_instants_are_told_apart(a: Timestamp, b: Timestamp)
    requires
        a.wf(),
        b.wf(),
    ensures
        a.instant() < b.instant() <==> a.secs < b.secs || (a.secs == b.secs && a.nanos < b.nanos),
        a.instant() == b.instant() <==> a == b,
        b.secs == a.secs + 1 && b.nanos == a.nanos ==> b.instant() == a.instant() + 1_000_000_000,
{
}

/// A source that changes after its thumbnail was written is noticed, however little
/// later that was, and its thumbnail is made again.
pub proof fn law_every_later_change_is_noticed(o: Observed, thumb: Timestamp)
    requires
        o.wf(),
        o.thumb == Some(thumb),
        o.modified.secs > thumb.secs || (o.modified.secs == thumb.secs && o.modified.nanos
            > thumb.nanos),
        o.now.secs > o.modified.secs || (o.now.secs == o.modified.secs && o.now.nanos
            >= o.modified.nanos),
    ensures
        util::image_name(o.name@) ==> create_plan(Some(o)) is MakeImageThumb,
        util::video_name(o.name@) ==> create_plan(Some(o)) is MakeVideoThumb,
{
    util::law_images_and_videos_are_disjoint(o.name@);
}

} // verus!
