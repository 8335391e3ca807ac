//! The decisions of the file system watcher.

use crate::path;
use crate::text;
use crate::util;
use crate::worker::ThumbJob;
use vstd::hash_map::StringHashMap;
use vstd::prelude::*;

verus! {

/// What an event reports.
#[derive(Debug, Clone, Copy, PartialEq, Eq, Structural)]
pub enum EventKind {
    /// Something was created, renamed, moved or modified.
    Changed,
    /// A file was closed after writing: the writer is finished with it.
    Closed,
    /// Something was removed.
    Removed,
    /// Anything else.
    Other,
}

/// What is at the path of an event now.
#[derive(Debug, Clone, Copy, PartialEq, Eq, Structural)]
pub enum PathState {
    File,
    Dir,
    /// Neither: a rename or move reports its source this way.
    Missing,
}

/// The work an event calls for.
pub enum Action {
    Nothing,
    /// Hand a job to the worker.
    Enqueue(ThumbJob),
    /// Enumerate a folder that has just appeared: its files are not reported one
    /// by one.
    Scan(String),
}

/// What an event calls for.
pub struct Reaction {
    /// Whether cached counts are out of date.
    pub drop_counts: bool,
    /// Whether cached covers are out of date.
    pub drop_covers: bool,
    pub action: Action,
}

/// The content of an [`Action`].
pub enum Work {
    Nothing,
    Create(Seq<char>),
    Delete(Seq<char>),
    Scan(Seq<char>),
}

/// The content of a [`Reaction`].
pub struct Response {
    pub drop_counts: bool,
    pub drop_covers: bool,
    pub work: Work,
}

impl View for Action {
    type V = Work;

    open spec fn view(&self) -> Work {
        match self {
            Action::Nothing => Work::Nothing,
            Action::Enqueue(ThumbJob::Create { rel_path }) => Work::Create(rel_path@),
            Action::Enqueue(ThumbJob::Delete { rel_path }) => Work::Delete(rel_path@),
            Action::Scan(rel) => Work::Scan(rel@),
        }
    }
}

impl View for Reaction {
    type V = Response;

    open spec fn view(&self) -> Response {
        Response {
            drop_counts: self.drop_counts,
            drop_covers: self.drop_covers,
            work: self.action@,
        }
    }
}

/// Whether a path is a folder of thumbnails or inside one, at any depth.
pub open spec fn in_thumbs(rel: Seq<char>) -> bool {
    path::segments(rel).contains("thumbs"@)
}

/// What is left of an event path beneath the album root, in its configured or
/// its canonical form. The root itself leaves nothing.
pub open spec fn below_root(
    root: Seq<char>,
    canonical_root: Seq<char>,
    path: Seq<char>,
) -> Option<Seq<char>> {
    let rel = match path::stripped(path, root) {
        Some(rel) => Some(rel),
        None => path::stripped(path, canonical_root),
    };
    match rel {
        Some(rel) => if rel.len() == 0 {
            None
        } else {
            Some(rel)
        },
        None => None,
    }
}

/// What an event for the album path `rel` calls for.
pub open spec fn response_to(rel: Seq<char>, kind: EventKind, state: PathState) -> Response {
    if in_thumbs(rel) {
        Response { drop_counts: false, drop_covers: true, work: Work::Nothing }
    } else {
        match kind {
            EventKind::Changed => Response {
                drop_counts: true,
                drop_covers: true,
                work: match state {
                    PathState::File => Work::Create(rel),
                    PathState::Dir => Work::Scan(rel),
                    PathState::Missing => Work::Delete(rel),
                },
            },
            EventKind::Closed => Response {
                drop_counts: false,
                drop_covers: state is File,
                work: if state is File {
                    Work::Create(rel)
                } else {
                    Work::Nothing
                },
            },
            EventKind::Removed => Response {
                drop_counts: true,
                drop_covers: true,
                work: Work::Delete(rel),
            },
            EventKind::Other => Response {
                drop_counts: false,
                drop_covers: false,
                work: Work::Nothing,
            },
        }
    }
}

/// What an event for `path` calls for: nothing outside the album.
pub open spec fn response(
    root: Seq<char>,
    canonical_root: Seq<char>,
    path: Seq<char>,
    kind: EventKind,
    state: PathState,
) -> Response {
    match below_root(root, canonical_root, path) {
        Some(rel) => response_to(text::replaced(rel, '\\', seq!['/']), kind, state),
        None => Response { drop_counts: false, drop_covers: false, work: Work::Nothing },
    }
}

/// Whether a path is a folder of thumbnails or inside one. Events for generated
/// thumbnails must never feed back into the worker.
pub fn is_thumbs(rel: &str) -> (r: bool)
    ensures
        r == in_thumbs(rel@),
{
    let parts = text::split_chars(&text::to_chars(rel), '/');
    let name = text::to_chars("thumbs");
    let ghost pieces = path::segments(rel@);
    let mut i: usize = 0;
    proof {
        assert(text::views(parts@).len() == parts@.len());
    }
    while i < parts.len()
        invariant
            i <= parts@.len() == pieces.len(),
            text::views(parts@) == pieces,
            name@ == "thumbs"@,
            pieces == path::segments(rel@),
            forall|j: int| 0 <= j < i ==> #[trigger] pieces[j] != "thumbs"@,
        decreases parts.len() - i,
    {
        proof {
            assert(text::views(parts@)[i as int] == parts@[i as int]@);
        }
        if text::same_chars(&parts[i], &name) {
            proof {
                assert(pieces[i as int] == "thumbs"@);
            }
            return true;
        }
        i = i + 1;
    }
    false
}

/// Strips the album root from an event path; nothing is left of a path outside
/// the album, or of the root itself.
pub fn strip_root(root: &str, canonical_root: &str, path: &str) -> (r: Option<String>)
    ensures
        util::opt_view(r) == below_root(root@, canonical_root@, path@),
{
    let rel = match path::strip_base(path, root) {
        Some(rel) => Some(rel),
        None => path::strip_base(path, canonical_root),
    };
    match rel {
        Some(rel) => {
            if rel.as_str().is_empty() {
                None
            } else {
                Some(rel)
            }
        },
        None => None,
    }
}

/// Decides what an event calls for.
pub fn react(root: &str, canonical_root: &str, path: &str, kind: EventKind, state: PathState) -> (r:
    Reaction)
    ensures
        r@ == response(root@, canonical_root@, path@, kind, state),
{
    let rel = match strip_root(root, canonical_root, path) {
        Some(rel) => rel,
        None => {
            return Reaction { drop_counts: false, drop_covers: false, action: Action::Nothing };
        },
    };
    let mut slash: Vec<char> = Vec::new();
    slash.push('/');
    proof {
        assert(slash@ =~= seq!['/']);
    }
    let rel = text::from_chars(&text::replace_chars(&text::to_chars(&rel), '\\', &slash));
    if is_thumbs(&rel) {
        return Reaction { drop_counts: false, drop_covers: true, action: Action::Nothing };
    }
    match kind {
        EventKind::Changed => Reaction {
            drop_counts: true,
            drop_covers: true,
            action: match state {
                PathState::File => Action::Enqueue(ThumbJob::Create { rel_path: rel }),
                PathState::Dir => Action::Scan(rel),
                PathState::Missing => Action::Enqueue(ThumbJob::Delete { rel_path: rel }),
            },
        },
        EventKind::Closed => {
            if state == PathState::File {
                Reaction {
                    drop_counts: false,
                    drop_covers: true,
                    action: Action::Enqueue(ThumbJob::Create { rel_path: rel }),
                }
            } else {
                Reaction { drop_counts: false, drop_covers: false, action: Action::Nothing }
            }
        },
        EventKind::Removed => Reaction {
            drop_counts: true,
            drop_covers: true,
            action: Action::Enqueue(ThumbJob::Delete { rel_path: rel }),
        },
        EventKind::Other => Reaction {
            drop_counts: false,
            drop_covers: false,
            action: Action::Nothing,
        },
    }
}

/// Whether the walk of a folder may start while these are being enumerated.
pub open spec fn may_start(walking: Set<Seq<char>>, rel: Seq<char>) -> bool {
    !walking.contains(rel)
}

/// The folders being enumerated, so that a burst of events for one folder does
/// not start overlapping walks of it.
pub struct InFlight {
    folders: StringHashMap<bool>,
}

impl View for InFlight {
    type V = Set<Seq<char>>;

    closed spec fn view(&self) -> Set<Seq<char>> {
        self.folders@.dom()
    }
}

impl InFlight {
    /// No folder is being enumerated.
    pub fn new() -> (r: Self)
        ensures
            r@ == Set::<Seq<char>>::empty(),
    {
        let r = InFlight { folders: StringHashMap::new() };
        proof {
            assert(r@ =~= Set::<Seq<char>>::empty());
        }
        r
    }

    /// Claims a folder, unless it is being enumerated already. Says whether the
    /// walk may start.
    pub fn begin(&mut self, rel: &str) -> (r: bool)
        ensures
            r == !old(self)@.contains(rel@),
            r == may_start(old(self)@, rel@),
            final(self)@ == old(self)@.insert(rel@),
    {
        if self.folders.contains_key(rel) {
            proof {
                assert(self@ =~= self@.insert(rel@));
            }
            return false;
        }
        let ghost before = self@;
        self.folders.insert(rel.to_owned(), true);
        proof {
            assert(self@ =~= before.insert(rel@));
        }
        true
    }

    /// Gives a folder up when its walk is over.
    pub fn end(&mut self, rel: &str)
        ensures
            final(self)@ == old(self)@.remove(rel@),
    {
        let ghost before = self@;
        self.folders.remove(rel);
        proof {
            assert(self@ =~= before.remove(rel@));
        }
    }
}

/// The path of the work in a response.
pub open spec fn work_path(work: Work) -> Option<Seq<char>> {
    match work {
        Work::Nothing => None,
        Work::Create(rel) => Some(rel),
        Work::Delete(rel) => Some(rel),
        Work::Scan(rel) => Some(rel),
    }
}

/// Nothing the worker writes comes back to it: an event inside a folder of
/// thumbnails calls for no work, and never for a recount.
pub proof fn law_thumbnails_never_feed_back(
    root: Seq<char>,
    canonical_root: Seq<char>,
    path: Seq<char>,
    kind: EventKind,
    state: PathState,
)
    ensures
        ({
            let r = response(root, canonical_root, path, kind, state);
            &&& work_path(r.work) is Some ==> !in_thumbs(work_path(r.work)->0)
            &&& r.drop_counts ==> below_root(root, canonical_root, path) is Some && !in_thumbs(
                text::replaced(below_root(root, canonical_root, path)->0, '\\', seq!['/']),
            )
        }),
{
}

/// What an event calls for, case by case. Outside the album it has no effect, and
/// at thumbnails it drops the covers only. Elsewhere what was removed, or has gone
/// since it changed, is deleted; a file that changed, or was closed after writing,
/// is taken up; a folder that changed is enumerated. The counts are dropped for
/// changes and removals exactly, and no other kind has any effect.
pub proof fn law_what_an_event_calls_for(
    root: Seq<char>,
    canonical_root: Seq<char>,
    path: Seq<char>,
    kind: EventKind,
    state: PathState,
)
    ensures
        ({
            let r = response(root, canonical_root, path, kind, state);
            match below_root(root, canonical_root, path) {
                None => !r.drop_counts && !r.drop_covers && r.work is Nothing,
                Some(below) => {
                    let rel = text::replaced(below, '\\', seq!['/']);
                    if in_thumbs(rel) {
                        !r.drop_counts && r.drop_covers && r.work is Nothing
                    } else {
                        &&& r.work == Work::Delete(rel) <==> kind is Removed || (kind is Changed
                            && state is Missing)
                        &&& r.work == Work::Create(rel) <==> (kind is Changed || kind is Closed)
                            && state is File
                        &&& r.work == Work::Scan(rel) <==> kind is Changed && state is Dir
                        &&& r.work is Nothing <==> kind is Other || (kind is Closed && !(
                        state is File))
                        &&& r.drop_counts <==> kind is Changed || kind is Removed
                        &&& r.drop_covers <==> !(r.work is Nothing)
                    }
                },
            }
        }),
{
}

/// An event outside the album is ignored.
pub proof fn law_events_outside_the_album_are_ignored(
    root: Seq<char>,
    canonical_root: Seq<char>,
    path: Seq<char>,
    kind: EventKind,
    state: PathState,
)
    requires
        !path::is_within(path, root),
        !path::is_within(path, canonical_root),
    ensures
        response(root, canonical_root, path, kind, state).work is Nothing,
        !response(root, canonical_root, path, kind, state).drop_counts,
        !response(root, canonical_root, path, kind, state).drop_covers,
{
}

/// Everything that can change a listing drops the cached covers along with the
/// counts, and every removal or arrival outside thumbnails drops both.
pub proof fn law_no_change_leaves_a_stale_count(rel: Seq<char>, kind: EventKind, state: PathState)
    ensures
        !in_thumbs(rel) && (kind is Changed || kind is Removed) ==> response_to(
            rel,
            kind,
            state,
        ).drop_counts,
        response_to(rel, kind, state).drop_counts ==> response_to(rel, kind, state).drop_covers,
        work_path(response_to(rel, kind, state).work) is Some ==> response_to(
            rel,
            kind,
            state,
        ).drop_covers,
{
}

/// A path is at thumbnails exactly where one of its names is `thumbs`, however deep;
/// a name that merely begins or ends alike is not.
pub proof fn law_thumbnails_are_told_by_whole_names(a: Seq<char>, b: Seq<char>)
    ensures
        in_thumbs(a + "/"@ + b) <==> in_thumbs(a) || in_thumbs(b),
        !a.contains('/') ==> (in_thumbs(a) <==> a == "thumbs"@),
{
    reveal_strlit("/");
    assert(a + "/"@ + b =~= a.push('/') + b);
    text::lemma_split_append(a, b, '/');
    let x = path::segments(a);
    let y = path::segments(b);
    let name = "thumbs"@;
    if x.contains(name) {
        let i = choose|i: int| 0 <= i < x.len() && x[i] == name;
        assert((x + y)[i] == name);
    }
    if y.contains(name) {
        let i = choose|i: int| 0 <= i < y.len() && y[i] == name;
        assert((x + y)[x.len() + i] == name);
    }
    if (x + y).contains(name) {
        let i = choose|i: int| 0 <= i < (x + y).len() && (x + y)[i] == name;
        if i < x.len() {
            assert(x[i] == name);
        } else {
            assert(y[i - x.len()] == name);
        }
    }
    if !a.contains('/') {
        text::lemma_split_plain(a, '/');
        assert(seq![a][0] == a);
    }
}

/// An event beneath the album root, in its configured or its canonical form, is for
/// the album path beneath it, and one for the root itself is for nothing.
pub proof fn law_events_are_for_album_paths(root: Seq<char>, other: Seq<char>, rel: Seq<char>)
    requires
        path::is_plain_path(root),
        path::is_plain_path(other),
        path::is_plain_path(rel),
    ensures
        below_root("/"@ + root, "/"@ + other, "/"@ + root + "/"@ + rel) == Some(rel),
        !path::is_within("/"@ + other + "/"@ + rel, "/"@ + root) ==> below_root(
            "/"@ + root,
            "/"@ + other,
            "/"@ + other + "/"@ + rel,
        ) == Some(rel),
        below_root("/"@ + root, "/"@ + other, "/"@ + root) is None,
{
    path::law_stripping_undoes_joining(root, rel);
    path::lemma_nothing_beneath(root);
    path::law_stripping_undoes_joining(other, rel);
    path::lemma_plain_path(rel);
}

/// A folder is not walked twice at once: from when its walk starts until it ends no
/// other walk of it may start, while walks of other folders may.
pub proof fn law_no_folder_is_walked_twice_at_once(
    walking: Set<Seq<char>>,
    rel: Seq<char>,
    other: Seq<char>,
)
    ensures
        !may_start(walking.insert(rel), rel),
        may_start(walking.remove(rel), rel),
        may_start(Set::empty(), rel),
        other != rel ==> may_start(walking.insert(rel), other) == may_start(walking, other),
        other != rel ==> may_start(walking.remove(rel), other) == may_start(walking, other),
{
}

} // verus!
