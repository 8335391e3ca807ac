//! Finding the media files of a folder tree.
//!
//! The walk of a tree is taken one folder at a time: it says which folder to
//! read next and takes what was found there, and hands out the media files to
//! be looked at. Hidden entries and folders of thumbnails are passed over, and a
//! directory reached through a link is never entered, because the link may lead
//! outside the album or back up its own tree.

use crate::counts;
use crate::counts::FileTree;
use crate::entry;
use crate::entry::DirEntry;
use crate::entry::EntryKind;
use crate::entry::EntryView;
use crate::entry::LinkTarget;
use crate::path;
use crate::text;
use crate::util;
use crate::watcher;
use crate::worker::Observed;
use crate::worker::ThumbJob;
use vstd::prelude::*;

verus! {

/// A media file found by a walk.
pub struct Candidate {
    /// Its album path.
    pub path: String,
    /// Its name.
    pub name: String,
}

/// The content of a [`Candidate`].
pub struct Found {
    pub path: Seq<char>,
    pub name: Seq<char>,
}

impl View for Candidate {
    type V = Found;

    open spec fn view(&self) -> Found {
        Found { path: self.path@, name: self.name@ }
    }
}

/// The contents of a listing, nothing where it could not be read.
pub open spec fn listed(listing: Option<Vec<DirEntry>>) -> Seq<EntryView> {
    match listing {
        Some(entries) => entry::entry_views(entries@),
        None => Seq::<EntryView>::empty(),
    }
}

/// A media file of the folder `rel`.
pub open spec fn found_in(rel: Seq<char>, e: EntryView) -> Found {
    Found {
        path: text::replaced(path::joined(rel, e.name), '\\', seq!['/']),
        name: e.name,
    }
}

/// The media files among the entries of the folder `rel`.
pub open spec fn candidates(rel: Seq<char>, entries: Seq<EntryView>) -> Seq<Found> {
    entries.filter(|e: EntryView| entry::is_shown_media(e)).map_values(
        |e: EntryView| found_in(rel, e),
    )
}

/// The subfolders among the entries of the folder `rel`.
pub open spec fn folders_to_enter(rel: Seq<char>, entries: Seq<EntryView>) -> Seq<Seq<char>> {
    entries.filter(|e: EntryView| entry::is_subfolder(e)).map_values(
        |e: EntryView| path::joined(rel, e.name),
    )
}

/// A walk of a folder tree.
pub struct ScanWalk {
    pending: Vec<String>,
}

impl View for ScanWalk {
    type V = Seq<Seq<char>>;

    /// The folders still to be read; the last one is next.
    closed spec fn view(&self) -> Seq<Seq<char>> {
        text::string_views(self.pending@)
    }
}

/// A walk of the whole album.
pub fn scan_existing() -> (r: ScanWalk)
    ensures
        r@ == seq![Seq::<char>::empty()],
{
    let mut pending: Vec<String> = Vec::new();
    pending.push(String::new());
    let r = ScanWalk { pending };
    proof {
        assert(r.pending@[0]@ =~= Seq::<char>::empty());
        assert(r@ =~= seq![Seq::<char>::empty()]);
    }
    r
}

/// Whether a folder that has just appeared is walked.
pub open spec fn is_walked(rel: Seq<char>) -> bool {
    rel.len() > 0 && !watcher::in_thumbs(rel)
}

/// A walk of a folder that has just appeared. There is none for the album root,
/// nor for a folder of thumbnails: thumbnails of thumbnails must not be made.
pub fn scan_subtree(rel: &str) -> (r: Option<ScanWalk>)
    ensures
        r is Some == (rel@.len() > 0 && !watcher::in_thumbs(rel@)),
        r is Some == is_walked(rel@),
        r is Some ==> r->0@ == seq![rel@],
{
    if rel.is_empty() || watcher::is_thumbs(rel) {
        return None;
    }
    let mut pending: Vec<String> = Vec::new();
    pending.push(rel.to_owned());
    let walk = ScanWalk { pending };
    proof {
        assert(walk@ =~= seq![rel@]);
    }
    Some(walk)
}

impl ScanWalk {
    /// The folder to read next, or nothing when the walk is complete.
    pub fn next(&self) -> (r: Option<String>)
        ensures
            r is Some == (self@.len() > 0),
            r is Some ==> r->0@ == self@.last(),
    {
        let n = self.pending.len();
        if n == 0 {
            None
        } else {
            Some(self.pending[n - 1].clone())
        }
    }

    /// Takes the listing of the folder [`ScanWalk::next`] named, and hands out
    /// the media files in it. A folder that could not be read is skipped.
    pub fn walk_dir(&mut self, listing: Option<Vec<DirEntry>>) -> (r: Vec<Candidate>)
        requires
            old(self)@.len() > 0,
        ensures
            r@.map_values(|c: Candidate| c@) == candidates(old(self)@.last(), listed(listing)),
            final(self)@ == old(self)@.drop_last() + folders_to_enter(
                old(self)@.last(),
                listed(listing),
            ),
    {
        let entries = match listing {
            Some(entries) => entries,
            None => Vec::new(),
        };
        let ghost before = self@;
        let rel = match self.pending.pop() {
            Some(rel) => rel,
            None => String::new(),
        };
        let ghost all = entry::entry_views(entries@);
        let ghost rest = self@;
        let ghost is_sub = |e: EntryView| entry::is_subfolder(e);
        let ghost enter = |e: EntryView| path::joined(rel@, e.name);
        let ghost is_media = |e: EntryView| entry::is_shown_media(e);
        let ghost find = |e: EntryView| found_in(rel@, e);
        let ghost view = |c: Candidate| c@;
        let mut slash: Vec<char> = Vec::new();
        slash.push('/');
        let mut found: Vec<Candidate> = Vec::new();
        let mut i: usize = 0;
        proof {
            reveal(Seq::filter);
            assert(all =~= listed(listing));
            assert(before.last() == rel@);
            assert(rest =~= before.drop_last());
            assert(slash@ =~= seq!['/']);
            assert(all.take(0).filter(is_sub).map_values(enter) =~= Seq::<Seq<char>>::empty());
            assert(rest + all.take(0).filter(is_sub).map_values(enter) =~= rest);
            assert(all.take(0).filter(is_media).map_values(find) =~= found@.map_values(view));
        }
        while i < entries.len()
            invariant
                i <= entries@.len(),
                all == entry::entry_views(entries@),
                slash@ == seq!['/'],
                is_sub == (|e: EntryView| entry::is_subfolder(e)),
                enter == (|e: EntryView| path::joined(rel@, e.name)),
                is_media == (|e: EntryView| entry::is_shown_media(e)),
                find == (|e: EntryView| found_in(rel@, e)),
                view == (|c: Candidate| c@),
                self@ == rest + all.take(i as int).filter(is_sub).map_values(enter),
                found@.map_values(view) == all.take(i as int).filter(is_media).map_values(find),
            decreases entries.len() - i,
        {
            let e = &entries[i];
            let ghost was = self@;
            let ghost had = found@;
            proof {
                reveal(Seq::filter);
                assert(all.take(i + 1).drop_last() =~= all.take(i as int));
                assert(all.take(i + 1).last() == e@);
                let subs = all.take(i as int).filter(is_sub);
                let media = all.take(i as int).filter(is_media);
                assert(subs.push(e@).map_values(enter) =~= subs.map_values(enter).push(enter(e@)));
                assert(media.push(e@).map_values(find) =~= media.map_values(find).push(find(e@)));
            }
            if entry::is_searchable_dir(e) {
                let sub = path::join_path(&rel, &e.name);
                let ghost sub_view = sub@;
                self.pending.push(sub);
                proof {
                    assert(self@ =~= was.push(sub_view));
                    assert(self@ =~= rest + all.take(i + 1).filter(is_sub).map_values(enter));
                }
            } else if entry::shown_media(e) {
                let sub = path::join_path(&rel, &e.name);
                let path = text::from_chars(
                    &text::replace_chars(&text::to_chars(&sub), '\\', &slash),
                );
                let c = Candidate { path, name: e.name.clone() };
                found.push(c);
                proof {
                    assert(found@.map_values(view) =~= had.map_values(view).push(c@));
                }
            }
            i = i + 1;
        }
        proof {
            assert(all.take(i as int) =~= all);
        }
        found
    }
}

/// The album path a job is queued for, where a file found there at `path` calls for
/// one.
pub open spec fn queued(path: Seq<char>, observed: Observed) -> Option<Seq<char>> {
    if observed.needs_work() {
        Some(path)
    } else {
        None
    }
}

/// The job a media file found by a walk calls for: none where its thumbnail and
/// its metadata are up to date.
pub fn scan_job(path: &str, observed: &Observed) -> (r: Option<ThumbJob>)
    requires
        observed.wf(),
    ensures
        r is Some == observed.needs_work(),
        r is Some ==> r->0 is Create && r->0->Create_rel_path@ == path@,
        match queued(path@, *observed) {
            Some(p) => r is Some && r->0 is Create && r->0->Create_rel_path@ == p,
            None => r is None,
        },
{
    if observed.out_of_date() {
        Some(ThumbJob::Create { rel_path: path.to_owned() })
    } else {
        None
    }
}

/// A walk that starts outside folders of thumbnails never enters one: what it
/// reaches from such a folder is outside them too.
pub proof fn law_a_walk_never_enters_thumbnails(rel: Seq<char>, name: Seq<char>)
    requires
        !watcher::in_thumbs(rel),
        !entry::is_passed_over(name),
        !name.contains('/'),
    ensures
        !watcher::in_thumbs(path::joined(rel, name)),
{
    text::lemma_split_plain(name, '/');
    if rel.len() == 0 {
        assert(path::joined(rel, name) =~= name);
        if seq![name].contains("thumbs"@) {
            assert(seq![name][0] == "thumbs"@);
        }
    } else {
        let front = if rel.last() == '/' {
            rel.drop_last()
        } else {
            rel
        };
        assert(path::joined(rel, name) =~= front.push('/') + name);
        text::lemma_split_append(front, name, '/');
        if rel.last() == '/' {
            assert(rel =~= front.push('/') + Seq::<char>::empty());
            text::lemma_split_append(front, Seq::<char>::empty(), '/');
        }
        let all = path::segments(front) + seq![name];
        if all.contains("thumbs"@) {
            let i = choose|i: int| 0 <= i < all.len() && all[i] == "thumbs"@;
            if i < path::segments(front).len() {
                assert(path::segments(rel)[i] == "thumbs"@);
            } else {
                assert(all[i] == name);
            }
        }
    }
}

/// Every folder of a tree has one tree for each subfolder in its listing.
pub open spec fn is_whole(tree: FileTree) -> bool
    decreases tree,
{
    &&& tree.subs.len() == entry::entry_views(tree.entries).filter(
        |e: EntryView| entry::is_subfolder(e),
    ).len()
    &&& forall|i: int| 0 <= i < tree.subs.len() ==> is_whole(#[trigger] tree.subs[i])
}

/// The media files in a tree whose top folder is `rel`.
pub open spec fn found_below(rel: Seq<char>, tree: FileTree) -> Seq<Found>
    decreases tree,
{
    candidates(rel, entry::entry_views(tree.entries)) + found_below_all(
        folders_to_enter(rel, entry::entry_views(tree.entries)),
        tree.subs,
    )
}

/// The media files in several trees, the last one first.
pub open spec fn found_below_all(rels: Seq<Seq<char>>, trees: Seq<FileTree>) -> Seq<Found>
    decreases trees,
{
    if trees.len() == 0 {
        Seq::<Found>::empty()
    } else {
        found_below(rels.last(), trees.last()) + found_below_all(
            rels.drop_last(),
            trees.drop_last(),
        )
    }
}

/// What a walk hands out until it is complete, when it has yet to read the tops
/// of `trees`. Each step is one of [`ScanWalk::walk_dir`].
pub open spec fn scanned(to_read: Seq<Seq<char>>, trees: Seq<FileTree>) -> Seq<Found>
    decreases counts::folders_in_all(trees),
{
    if trees.len() == 0 || to_read.len() != trees.len() {
        Seq::<Found>::empty()
    } else {
        let rel = to_read.last();
        let tree = trees.last();
        let entries = entry::entry_views(tree.entries);
        proof {
            counts::lemma_last_tree(trees);
            counts::lemma_folders_append(trees.drop_last(), tree.subs);
        }
        candidates(rel, entries) + scanned(
            to_read.drop_last() + folders_to_enter(rel, entries),
            trees.drop_last() + tree.subs,
        )
    }
}

proof fn lemma_found_append(
    a: Seq<Seq<char>>,
    s: Seq<FileTree>,
    b: Seq<Seq<char>>,
    t: Seq<FileTree>,
)
    requires
        a.len() == s.len(),
        b.len() == t.len(),
    ensures
        found_below_all(a + b, s + t) == found_below_all(b, t) + found_below_all(a, s),
    decreases t.len(),
{
    if t.len() == 0 {
        assert(a + b =~= a);
        assert(s + t =~= s);
        assert(found_below_all(b, t) + found_below_all(a, s) =~= found_below_all(a, s));
    } else {
        lemma_found_append(a, s, b.drop_last(), t.drop_last());
        assert((a + b).drop_last() =~= a + b.drop_last());
        assert((s + t).drop_last() =~= s + t.drop_last());
        let first = found_below(b.last(), t.last());
        let second = found_below_all(b.drop_last(), t.drop_last());
        assert(first + (second + found_below_all(a, s)) =~= (first + second) + found_below_all(
            a,
            s,
        ));
    }
}

/// A complete walk hands out the media files of the whole tree, each as often as
/// it is listed and no others: whatever is in the top folder, and what its
/// subfolders hold.
pub proof fn law_a_scan_finds_every_media_file(to_read: Seq<Seq<char>>, trees: Seq<FileTree>)
    requires
        to_read.len() == trees.len(),
        forall|i: int| 0 <= i < trees.len() ==> is_whole(#[trigger] trees[i]),
    ensures
        scanned(to_read, trees) == found_below_all(to_read, trees),
    decreases counts::folders_in_all(trees),
{
    if trees.len() > 0 {
        let rel = to_read.last();
        let tree = trees.last();
        let entries = entry::entry_views(tree.entries);
        let enter = folders_to_enter(rel, entries);
        let rest = to_read.drop_last() + enter;
        let more = trees.drop_last() + tree.subs;
        counts::lemma_last_tree(trees);
        counts::lemma_folders_append(trees.drop_last(), tree.subs);
        assert(is_whole(trees[trees.len() - 1]));
        assert forall|i: int| 0 <= i < more.len() implies is_whole(#[trigger] more[i]) by {
            if i < trees.len() - 1 {
                assert(more[i] == trees[i]);
            } else {
                assert(more[i] == tree.subs[i - (trees.len() - 1)]);
            }
        }
        law_a_scan_finds_every_media_file(rest, more);
        lemma_found_append(to_read.drop_last(), trees.drop_last(), enter, tree.subs);
        lemma_found_last(to_read, trees);
        let here = candidates(rel, entries);
        let below = found_below_all(enter, tree.subs);
        let others = found_below_all(to_read.drop_last(), trees.drop_last());
        assert(here + (below + others) =~= (here + below) + others);
    }
}

proof fn lemma_found_last(rels: Seq<Seq<char>>, trees: Seq<FileTree>)
    requires
        trees.len() > 0,
    ensures
        found_below_all(rels, trees) == (candidates(
            rels.last(),
            entry::entry_views(trees.last().entries),
        ) + found_below_all(
            folders_to_enter(rels.last(), entry::entry_views(trees.last().entries)),
            trees.last().subs,
        )) + found_below_all(rels.drop_last(), trees.drop_last()),
{
    reveal_with_fuel(found_below, 2);
    reveal_with_fuel(found_below_all, 2);
}

/// What a walk takes from one folder: every file with a media name in it, directly
/// or through a link, unless it is hidden, and nothing else; and it goes on into
/// every real directory that is neither hidden nor one of thumbnails.
pub proof fn law_what_a_walk_takes_from_a_folder(
    rel: Seq<char>,
    entries: Seq<EntryView>,
    e: EntryView,
)
    requires
        entries.contains(e),
    ensures
        ({
            let ordinary = !(e.name.len() > 0 && e.name[0] == '.') && e.name != "thumbs"@;
            let is_media = util::image_name(e.name) || util::video_name(e.name);
            let is_file = e.kind == EntryKind::File || e.kind == EntryKind::Link(LinkTarget::File);
            &&& ordinary && is_media && is_file ==> candidates(rel, entries).contains(
                found_in(rel, e),
            )
            &&& ordinary && e.kind is Dir ==> folders_to_enter(rel, entries).contains(
                path::joined(rel, e.name),
            )
        }),
{
    broadcast use vstd::seq_lib::group_filter_ensures;

    let is_media = |x: EntryView| entry::is_shown_media(x);
    let is_sub = |x: EntryView| entry::is_subfolder(x);
    let k = choose|k: int| 0 <= k < entries.len() && entries[k] == e;
    if is_media(e) {
        entries.lemma_filter_contains(is_media, k);
        let kept = entries.filter(is_media);
        let i = choose|i: int| 0 <= i < kept.len() && kept[i] == e;
        assert(candidates(rel, entries)[i] == found_in(rel, e));
    }
    if is_sub(e) {
        entries.lemma_filter_contains(is_sub, k);
        let kept = entries.filter(is_sub);
        let i = choose|i: int| 0 <= i < kept.len() && kept[i] == e;
        assert(folders_to_enter(rel, entries)[i] == path::joined(rel, e.name));
    }
}

/// What a walk takes from a folder comes from an entry of it: a file or a link to
/// one, with a media name that is not hidden. What it goes on into is a real
/// directory that is neither hidden nor one of thumbnails.
pub proof fn law_what_a_walk_takes_is_there(rel: Seq<char>, entries: Seq<EntryView>, i: int)
    ensures
        0 <= i < candidates(rel, entries).len() ==> exists|e: EntryView|
            {
                &&& #[trigger] entries.contains(e)
                &&& candidates(rel, entries)[i] == found_in(rel, e)
                &&& util::image_name(e.name) || util::video_name(e.name)
                &&& !(e.name.len() > 0 && e.name[0] == '.')
                &&& e.kind == EntryKind::File || e.kind == EntryKind::Link(LinkTarget::File)
            },
        0 <= i < folders_to_enter(rel, entries).len() ==> exists|e: EntryView|
            {
                &&& #[trigger] entries.contains(e)
                &&& folders_to_enter(rel, entries)[i] == path::joined(rel, e.name)
                &&& e.kind is Dir && e.name != "thumbs"@ && !(e.name.len() > 0 && e.name[0] == '.')
            },
{
    broadcast use vstd::seq_lib::group_filter_ensures;

    let is_media = |x: EntryView| entry::is_shown_media(x);
    let is_sub = |x: EntryView| entry::is_subfolder(x);
    if 0 <= i < candidates(rel, entries).len() {
        let e = entries.filter(is_media)[i];
        assert(is_media(e));
        assert(entries.filter(is_media).contains(e));
        entries.lemma_filter_contains_rev(is_media, e);
        assert(entries.contains(e));
    }
    if 0 <= i < folders_to_enter(rel, entries).len() {
        let e = entries.filter(is_sub)[i];
        assert(is_sub(e));
        assert(entries.filter(is_sub).contains(e));
        entries.lemma_filter_contains_rev(is_sub, e);
        assert(entries.contains(e));
    }
}

/// A media file is found under its album path and its own name.
pub proof fn law_a_file_is_found_under_its_path(rel: Seq<char>, e: EntryView)
    requires
        e.name.len() > 0,
        e.name[0] != '/',
        !e.name.contains('\\'),
        !rel.contains('\\'),
        rel.len() > 0 ==> rel.last() != '/',
    ensures
        found_in(rel, e).name == e.name,
        found_in(rel, e).path == if rel.len() == 0 {
            e.name
        } else {
            rel + "/"@ + e.name
        },
{
    reveal_strlit("/");
    let whole = path::joined(rel, e.name);
    assert(whole =~= if rel.len() == 0 {
        e.name
    } else {
        rel + "/"@ + e.name
    });
    assert(!whole.contains('\\')) by {
        if whole.contains('\\') {
            let k = choose|k: int| 0 <= k < whole.len() && whole[k] == '\\';
            if k < rel.len() {
                assert(rel[k] == '\\');
            } else if rel.len() == 0 {
                assert(e.name[k] == '\\');
            } else if k > rel.len() {
                assert(e.name[k - rel.len() - 1] == '\\');
            }
        }
    }
    text::lemma_replaced_absent(whole, '\\', seq!['/']);
}

/// Every media file of a tree is found: those of its top folder, and whatever is
/// found in the tree of a subfolder.
pub proof fn law_every_file_of_a_tree_is_found(
    rel: Seq<char>,
    tree: FileTree,
    k: int,
    file: Found,
)
    requires
        is_whole(tree),
    ensures
        candidates(rel, entry::entry_views(tree.entries)).contains(file) ==> found_below(
            rel,
            tree,
        ).contains(file),
        0 <= k < tree.subs.len() && found_below(
            folders_to_enter(rel, entry::entry_views(tree.entries))[k],
            tree.subs[k],
        ).contains(file) ==> found_below(rel, tree).contains(file),
{
    let here = candidates(rel, entry::entry_views(tree.entries));
    let rels = folders_to_enter(rel, entry::entry_views(tree.entries));
    let below = found_below_all(rels, tree.subs);
    if here.contains(file) {
        let i = choose|i: int| 0 <= i < here.len() && here[i] == file;
        assert((here + below)[i] == file);
    }
    if 0 <= k < tree.subs.len() && found_below(rels[k], tree.subs[k]).contains(file) {
        lemma_found_in(rels, tree.subs, k, file);
        let i = choose|i: int| 0 <= i < below.len() && below[i] == file;
        assert((here + below)[here.len() + i] == file);
    }
}

proof fn lemma_found_in(rels: Seq<Seq<char>>, trees: Seq<FileTree>, k: int, file: Found)
    requires
        rels.len() == trees.len(),
        0 <= k < trees.len(),
        found_below(rels[k], trees[k]).contains(file),
    ensures
        found_below_all(rels, trees).contains(file),
    decreases trees.len(),
{
    let first = found_below(rels.last(), trees.last());
    let rest = found_below_all(rels.drop_last(), trees.drop_last());
    if k == trees.len() - 1 {
        let i = choose|i: int| 0 <= i < first.len() && first[i] == file;
        assert((first + rest)[i] == file);
    } else {
        assert(rels.drop_last()[k] == rels[k] && trees.drop_last()[k] == trees[k]);
        lemma_found_in(rels.drop_last(), trees.drop_last(), k, file);
        let i = choose|i: int| 0 <= i < rest.len() && rest[i] == file;
        assert((first + rest)[first.len() + i] == file);
    }
}

/// A file found by a walk is queued, under its own path, exactly where there is work
/// for it: its thumbnail is missing or older than it is, or its metadata is missing,
/// or it is a video that was never probed.
pub proof fn law_a_scan_queues_what_needs_work(path: Seq<char>, o: Observed)
    requires
        o.modified.instant() <= o.now.instant(),
    ensures
        ({
            let is_media = util::image_name(o.name@) || util::video_name(o.name@);
            let stale = !(o.thumb is Some && o.thumb->0.instant() >= o.modified.instant());
            let unknown = o.row is None || (util::video_name(o.name@) && !o.row->0.probed);
            queued(path, o) == if is_media && (stale || unknown) {
                Some(path)
            } else {
                None
            }
        }),
{
}

/// A folder that has appeared is walked unless it is the album root, or is or lies in
/// a folder of thumbnails.
pub proof fn law_which_folders_are_walked(a: Seq<char>, b: Seq<char>)
    requires
        !a.contains('/'),
    ensures
        !is_walked(Seq::empty()),
        !is_walked("thumbs"@ + "/"@ + b),
        !is_walked(b + "/"@ + "thumbs"@),
        a.len() > 0 && a != "thumbs"@ ==> is_walked(a),
        a.len() > 0 && a != "thumbs"@ && is_walked(b) ==> is_walked(a + "/"@ + b),
{
    reveal_strlit("thumbs");
    assert(!"thumbs"@.contains('/'));
    watcher::law_thumbnails_are_told_by_whole_names("thumbs"@, b);
    watcher::law_thumbnails_are_told_by_whole_names(b, "thumbs"@);
    watcher::law_thumbnails_are_told_by_whole_names(a, b);
}

/// An album path never holds a backslash.
pub proof fn law_found_paths_hold_no_backslash(rel: Seq<char>, e: EntryView)
    ensures
        !found_in(rel, e).path.contains('\\'),
        found_in(rel, e).path.len() == path::joined(rel, e.name).len(),
{
    lemma_replaced_away(path::joined(rel, e.name));
}

proof fn lemma_replaced_away(s: Seq<char>)
    ensures
        !text::replaced(s, '\\', seq!['/']).contains('\\'),
        text::replaced(s, '\\', seq!['/']).len() == s.len(),
    decreases s.len(),
{
    if s.len() > 0 {
        lemma_replaced_away(s.drop_last());
        let front = text::replaced(s.drop_last(), '\\', seq!['/']);
        let all = text::replaced(s, '\\', seq!['/']);
        if all.contains('\\') {
            let k = choose|k: int| 0 <= k < all.len() && all[k] == '\\';
            if k < front.len() {
                assert(front[k] == '\\');
            }
        }
    }
}

} // verus!
