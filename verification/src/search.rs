//! Finding a cover for a folder.
//!
//! A folder without an explicit cover shows the first thumbnail found in the
//! folder itself, then in its immediate children, then in its grandchildren,
//! each level in name order. [`CoverSearch`] says which folder to look into next
//! and takes what was found there, so that no folder is read before the ones
//! that come first have been ruled out.

use crate::cache;
use crate::covers;
use crate::covers::CoverCache;
use crate::entry;
use crate::entry::DirEntry;
use crate::entry::EntryKind;
use crate::entry::EntryView;
use crate::listing;
use crate::path;
use crate::text;
use crate::util;
use vstd::prelude::*;

verus! {

/// How many levels below the folder are searched.
pub const MAX_DEPTH: usize = 2;

/// What one folder holds: its entries, and those of its `thumbs` folder. Either
/// is absent when it could not be read.
pub struct FolderScan {
    pub entries: Option<Vec<DirEntry>>,
    pub thumbs: Option<Vec<DirEntry>>,
}

/// The content of a [`FolderScan`].
pub struct Scan {
    pub entries: Option<Seq<EntryView>>,
    pub thumbs: Option<Seq<EntryView>>,
}

/// The contents of a listing that may be absent.
pub open spec fn listing_view(listing: Option<Vec<DirEntry>>) -> Option<Seq<EntryView>> {
    match listing {
        Some(entries) => Some(entry::entry_views(entries@)),
        None => None,
    }
}

impl View for FolderScan {
    type V = Scan;

    open spec fn view(&self) -> Scan {
        Scan { entries: listing_view(self.entries), thumbs: listing_view(self.thumbs) }
    }
}

/// Where `mark` occurs last among the first `k` positions of `s`.
pub open spec fn last_at(s: Seq<char>, mark: Seq<char>, k: int) -> Option<int>
    decreases k,
{
    if k <= 0 {
        None
    } else if k - 1 + mark.len() <= s.len() && s.subrange(k - 1, k - 1 + mark.len()) == mark {
        Some(k - 1)
    } else {
        last_at(s, mark, k - 1)
    }
}

/// The stem a thumbnail was named after: what comes before its last `_thumb.`.
pub open spec fn thumb_stem(name: Seq<char>) -> Option<Seq<char>> {
    match last_at(name, "_thumb."@, name.len() as int) {
        Some(i) => Some(name.take(i)),
        None => None,
    }
}

/// Whether a media file with this stem is among the entries of a folder.
pub open spec fn has_source(entries: Seq<EntryView>, stem: Seq<char>) -> bool {
    exists|i: int|
        0 <= i < entries.len() && util::media_name((#[trigger] entries[i]).name) && util::stem_of(
            entries[i].name,
        ) == stem
}

/// Whether a file in `thumbs` can serve as a cover: it is not hidden, and the
/// media file it was made from is still there.
pub open spec fn is_usable_thumb(entries: Seq<EntryView>, name: Seq<char>) -> bool {
    &&& !(name.len() > 0 && name[0] == '.')
    &&& thumb_stem(name) matches Some(stem) && has_source(entries, stem)
}

/// The first usable name among `thumbs`.
pub open spec fn first_usable(entries: Seq<EntryView>, thumbs: Seq<EntryView>) -> Option<Seq<char>>
    decreases thumbs.len(),
{
    if thumbs.len() == 0 {
        None
    } else if is_usable_thumb(entries, thumbs.first().name) {
        Some(thumbs.first().name)
    } else {
        first_usable(entries, thumbs.drop_first())
    }
}

/// The thumbnail one folder offers: the first usable one in name order.
pub open spec fn thumb_in(scan: Scan) -> Option<Seq<char>> {
    match (scan.entries, scan.thumbs) {
        (Some(entries), Some(thumbs)) => first_usable(entries, entry::by_name(thumbs)),
        _ => None,
    }
}

/// The path of the thumbnail `thumb` of the folder `rel`.
pub open spec fn thumb_path(rel: Seq<char>, thumb: Seq<char>) -> Seq<char> {
    entry::child_path(rel, "thumbs/"@ + thumb)
}

/// The subfolders of the folder `rel`, in name order.
pub open spec fn folders_in(rel: Seq<char>, scan: Scan) -> Seq<Seq<char>> {
    match scan.entries {
        Some(entries) => entry::by_name(entries).filter(
            |e: EntryView| entry::is_subfolder(e),
        ).map_values(|e: EntryView| entry::child_path(rel, e.name)),
        None => Seq::<Seq<char>>::empty(),
    }
}

/// What every folder below the one searched holds, by its path from there.
pub type Tree = spec_fn(Seq<char>) -> Scan;

/// The first thumbnail offered by the folders of one level.
pub open spec fn first_of(level: Seq<Seq<char>>, tree: Tree) -> Option<Seq<char>>
    decreases level.len(),
{
    if level.len() == 0 {
        None
    } else {
        match thumb_in(tree(level.first())) {
            Some(thumb) => Some(thumb_path(level.first(), thumb)),
            None => first_of(level.drop_first(), tree),
        }
    }
}

/// The folders one level below those of `level`.
pub open spec fn level_below(level: Seq<Seq<char>>, tree: Tree) -> Seq<Seq<char>>
    decreases level.len(),
{
    if level.len() == 0 {
        Seq::<Seq<char>>::empty()
    } else {
        folders_in(level.first(), tree(level.first())) + level_below(level.drop_first(), tree)
    }
}

/// The first thumbnail in `level`, which is `depth` levels down, or else in the
/// levels below it.
pub open spec fn search_from(depth: nat, level: Seq<Seq<char>>, tree: Tree) -> Option<Seq<char>>
    decreases MAX_DEPTH - depth,
{
    match first_of(level, tree) {
        Some(cover) => Some(cover),
        None => if depth >= MAX_DEPTH {
            None
        } else {
            search_from(depth + 1, level_below(level, tree), tree)
        },
    }
}

/// The cover of a folder: the first thumbnail in the folder itself, its
/// children or its grandchildren.
pub open spec fn first_thumb(tree: Tree) -> Option<Seq<char>> {
    search_from(0, seq![Seq::<char>::empty()], tree)
}

/// A search for the cover of a folder.
pub struct CoverSearch {
    depth: usize,
    level: Vec<String>,
    at: usize,
    below: Vec<String>,
    answer: Option<String>,
}

impl CoverSearch {
    /// The search is within its bounds, and has moved on from any level it has
    /// used up.
    pub closed spec fn wf(&self) -> bool {
        &&& self.depth <= MAX_DEPTH
        &&& self.at <= self.level@.len()
        &&& self.answer is None && self.at == self.level@.len() ==> self.below@.len() == 0
            || self.depth == MAX_DEPTH
    }

    /// Whether the search has ended.
    pub closed spec fn is_done(&self) -> bool {
        self.answer is Some || self.at >= self.level@.len()
    }

    /// The folder to look into next.
    pub closed spec fn current(&self) -> Seq<char> {
        self.level@[self.at as int]@
    }

    /// The cover this search ends with, where the folders it has yet to look into
    /// hold what `tree` says.
    pub closed spec fn outcome(&self, tree: Tree) -> Option<Seq<char>> {
        match self.answer {
            Some(cover) => Some(cover@),
            None => {
                let rest = text::string_views(self.level@).skip(self.at as int);
                match first_of(rest, tree) {
                    Some(cover) => Some(cover),
                    None => if self.depth >= MAX_DEPTH {
                        None
                    } else {
                        search_from(
                            self.depth as nat + 1,
                            text::string_views(self.below@) + level_below(rest, tree),
                            tree,
                        )
                    },
                }
            },
        }
    }

    /// How many levels are left below the present one.
    pub closed spec fn levels_left(&self) -> nat {
        if self.depth <= MAX_DEPTH {
            (MAX_DEPTH - self.depth) as nat
        } else {
            0
        }
    }

    /// How many folders of the present level are left.
    pub closed spec fn folders_left(&self) -> nat {
        if self.at <= self.level@.len() {
            (self.level@.len() - self.at) as nat
        } else {
            0
        }
    }

    /// A search that has looked into nothing yet.
    pub fn start() -> (r: Self)
        ensures
            r.wf(),
            !r.is_done(),
            r.current() == Seq::<char>::empty(),
            forall|tree: Tree| #[trigger] r.outcome(tree) == first_thumb(tree),
    {
        let mut level: Vec<String> = Vec::new();
        level.push(String::new());
        let r = CoverSearch { depth: 0, level, at: 0, below: Vec::new(), answer: None };
        proof {
            let top = seq![Seq::<char>::empty()];
            assert(text::string_views(r.level@).skip(0) =~= top);
            assert forall|tree: Tree| #[trigger] r.outcome(tree) == first_thumb(tree) by {
                assert(text::string_views(r.below@) + level_below(top, tree) =~= level_below(
                    top,
                    tree,
                ));
            }
        }
        r
    }

    /// The folder to look into next, relative to the one searched, or nothing
    /// when the search has ended.
    pub fn next(&self) -> (r: Option<String>)
        requires
            self.wf(),
        ensures
            r is None == self.is_done(),
            r is Some ==> r->0@ == self.current(),
    {
        if self.answer.is_some() || self.at >= self.level.len() {
            None
        } else {
            Some(self.level[self.at].clone())
        }
    }

    /// Takes what the folder [`CoverSearch::next`] named holds.
    pub fn feed(&mut self, scan: &FolderScan)
        requires
            old(self).wf(),
            !old(self).is_done(),
        ensures
            final(self).wf(),
            final(self).levels_left() < old(self).levels_left() || final(self).levels_left() == old(
                self,
            ).levels_left() && final(self).folders_left() < old(self).folders_left(),
            forall|tree: Tree| #[trigger]
                tree(old(self).current()) == scan@ ==> final(self).outcome(tree) == old(
                    self,
                ).outcome(tree),
    {
        let ghost before = *self;
        let ghost levels = text::string_views(self.level@);
        let ghost rest = levels.skip(self.at as int);
        let rel = self.level[self.at].clone();
        assert(self.at < self.level.len());
        proof {
            assert(rest.first() == rel@);
            assert(rest.drop_first() =~= levels.skip(self.at + 1));
        }
        match usable_thumb(scan) {
            Some(thumb) => {
                let mut tail: String = "thumbs/".to_owned();
                tail.append(&thumb);
                self.answer = Some(entry::child_of(&rel, &tail));
                self.at = self.at + 1;
            },
            None => {
                let mut found = folders_of(&rel, scan);
                let ghost belows = text::string_views(self.below@);
                let ghost more = text::string_views(found@);
                let next: usize = self.at + 1;
                self.below.append(&mut found);
                self.at = next;
                proof {
                    assert(text::string_views(self.below@) =~= belows + more);
                    assert forall|tree: Tree| #[trigger]
                        tree(before.current()) == scan@ implies self.outcome(tree)
                        == before.outcome(tree) by {
                        assert(belows + (more + level_below(rest.drop_first(), tree)) =~= (belows
                            + more) + level_below(rest.drop_first(), tree));
                    }
                }
                self.descend();
            },
        }
    }

    /// Moves to the level below while the present one is used up.
    fn descend(&mut self)
        requires
            old(self).depth <= MAX_DEPTH,
            old(self).at <= old(self).level@.len(),
            old(self).answer is None,
        ensures
            final(self).wf(),
            final(self).levels_left() < old(self).levels_left() || final(self).levels_left() == old(
                self,
            ).levels_left() && final(self).folders_left() == old(self).folders_left(),
            forall|tree: Tree| #[trigger] final(self).outcome(tree) == old(self).outcome(tree),
    {
        if self.at == self.level.len() && self.depth < MAX_DEPTH && self.below.len() > 0 {
            let ghost before = *self;
            let mut next: Vec<String> = Vec::new();
            next.append(&mut self.below);
            self.level = next;
            self.at = 0;
            self.depth = self.depth + 1;
            proof {
                let belows = text::string_views(before.below@);
                assert(self.level@ =~= before.below@);
                assert(text::string_views(self.below@) =~= Seq::<Seq<char>>::empty());
                assert(text::string_views(self.level@).skip(0) =~= belows);
                assert forall|tree: Tree| #[trigger] self.outcome(tree) == before.outcome(tree) by {
                    let used = text::string_views(before.level@).skip(before.at as int);
                    assert(used =~= Seq::<Seq<char>>::empty());
                    assert(belows + level_below(used, tree) =~= belows);
                    assert(text::string_views(self.below@) + level_below(belows, tree)
                        =~= level_below(belows, tree));
                }
            }
        }
    }

    /// The cover found, once the search has ended.
    pub fn finish(self) -> (r: Option<String>)
        requires
            self.wf(),
            self.is_done(),
        ensures
            forall|tree: Tree| util::opt_view(r) == #[trigger] self.outcome(tree),
    {
        proof {
            assert forall|tree: Tree| util::opt_view(self.answer) == #[trigger] self.outcome(
                tree,
            ) by {
                if self.answer is None {
                    let rest = text::string_views(self.level@).skip(self.at as int);
                    assert(rest =~= Seq::<Seq<char>>::empty());
                    if self.depth < MAX_DEPTH {
                        assert(text::string_views(self.below@) + level_below(rest, tree) =~= Seq::<
                            Seq<char>,
                        >::empty());
                        lemma_nothing_to_search(self.depth as nat + 1, tree);
                    }
                }
            }
        }
        self.answer
    }
}

proof fn lemma_nothing_to_search(depth: nat, tree: Tree)
    ensures
        search_from(depth, Seq::<Seq<char>>::empty(), tree) is None,
    decreases MAX_DEPTH - depth,
{
    if depth < MAX_DEPTH {
        assert(level_below(Seq::<Seq<char>>::empty(), tree) =~= Seq::<Seq<char>>::empty());
        lemma_nothing_to_search(depth + 1, tree);
    }
}

/// Whether every answer `scan` can give is what `tree` says.
pub open spec fn scans<S: Fn(&str) -> FolderScan>(scan: S, tree: Tree) -> bool {
    forall|rel: &str, found: FolderScan| #[trigger]
        call_ensures(scan, (rel,), found) ==> found@ == tree(rel@)
}

/// Finds the first available thumbnail in a folder or its descendants, down to
/// its grandchildren. `scan` looks into a folder, given by its path from the one
/// searched.
pub fn find_first_thumb_recursive<S: Fn(&str) -> FolderScan>(scan: S) -> (r: Option<String>)
    requires
        forall|rel: &str| #[trigger] call_requires(scan, (rel,)),
    ensures
        forall|tree: Tree| #[trigger] scans(scan, tree) ==> util::opt_view(r) == first_thumb(tree),
{
    let mut search = CoverSearch::start();
    let mut at = search.next();
    while at.is_some()
        invariant
            search.wf(),
            at is None == search.is_done(),
            at is Some ==> at->0@ == search.current(),
            forall|rel: &str| #[trigger] call_requires(scan, (rel,)),
            forall|tree: Tree| #[trigger]
                scans(scan, tree) ==> search.outcome(tree) == first_thumb(tree),
        decreases search.levels_left(), search.folders_left(),
    {
        let ghost before = search;
        if let Some(rel) = at {
            let found = scan(&rel);
            search.feed(&found);
            proof {
                assert forall|tree: Tree| #[trigger] scans(scan, tree) implies search.outcome(tree)
                    == first_thumb(tree) by {
                    assert(tree(before.current()) == found@);
                }
            }
        }
        at = search.next();
    }
    search.finish()
}

/// The thumbnail of the image `image`, relative to the folder it covers.
pub open spec fn cover_thumb(folder: Seq<char>, image: Seq<char>) -> Option<Seq<char>> {
    let prefix = folder.push('/');
    let rel = if folder.len() > 0 && prefix.is_prefix_of(image) {
        image.skip(prefix.len() as int)
    } else {
        image
    };
    match path::file_name_of(rel) {
        None => None,
        Some(name) => {
            let parent = match path::parent_of(rel) {
                Some(parent) => parent,
                None => Seq::<char>::empty(),
            };
            Some(
                if parent.len() == 0 {
                    "thumbs/"@ + util::thumb_name_of(name)
                } else {
                    text::replaced(parent, '\\', seq!['/']) + "/thumbs/"@ + util::thumb_name_of(
                        name,
                    )
                },
            )
        },
    }
}

/// The thumbnail path of the image `full_image_path`, relative to the folder
/// `folder_path` that it is the cover of. Both are given from the album root.
pub fn compute_cover_thumb(folder_path: &str, full_image_path: &str) -> (r: Option<String>)
    ensures
        util::opt_view(r) == cover_thumb(folder_path@, full_image_path@),
{
    let image = text::to_chars(full_image_path);
    let mut prefix = text::to_chars(folder_path);
    let inside = prefix.len() > 0;
    prefix.push('/');
    let rel = if inside && text::starts_with(&image, &prefix) {
        let rest = text::copy_range(&image, prefix.len(), image.len());
        proof {
            assert(rest@ =~= image@.skip(prefix@.len() as int));
        }
        rest
    } else {
        image
    };
    match path::file_name_chars(&rel) {
        None => None,
        Some(name) => {
            let thumb = util::thumb_name(&text::from_chars(&name));
            let parent = match path::parent_chars(&rel) {
                Some(parent) => parent,
                None => Vec::new(),
            };
            if parent.len() == 0 {
                let mut out: String = "thumbs/".to_owned();
                out.append(&thumb);
                Some(out)
            } else {
                let mut slash: Vec<char> = Vec::new();
                slash.push('/');
                proof {
                    assert(slash@ =~= seq!['/']);
                }
                let mut out: String = text::from_chars(
                    &text::replace_chars(&parent, '\\', &slash),
                );
                out.append("/thumbs/");
                out.append(&thumb);
                Some(out)
            }
        },
    }
}

/// The computed cover of `folder`, searched for only when the cache has no live
/// answer: nothing is looked into where it has one. `scan` looks into a folder, given by its path from `folder`.
pub fn resolve_cover<S: Fn(&str) -> FolderScan>(
    covers: &mut CoverCache,
    folder: &str,
    scan: S,
) -> (r: Option<String>)
    requires
        old(covers).wf(),
        cache::live(old(covers)@, folder@) is None ==> forall|rel: &str| #[trigger]
            call_requires(scan, (rel,)),
    ensures
        final(covers).wf(),
        cache::live(old(covers)@, folder@) matches Some(c) ==> {
            &&& util::opt_view(r) == c
            &&& final(covers)@ == old(covers)@
        },
        cache::live(old(covers)@, folder@) is None ==> {
            &&& forall|tree: Tree| #[trigger]
                scans(scan, tree) ==> util::opt_view(r) == first_thumb(tree)
            &&& final(covers)@ == cache::stored(
                covers::with_room(old(covers)@),
                old(covers)@.generation,
                folder@,
                util::opt_view(r),
            )
        },
{
    let resolve = || -> (found: Option<String>)
        requires
            forall|rel: &str| #[trigger] call_requires(scan, (rel,)),
        ensures
            forall|tree: Tree| #[trigger]
                scans(scan, tree) ==> util::opt_view(found) == first_thumb(tree),
        { find_first_thumb_recursive(scan) };
    covers.get_or_compute(folder, resolve)
}

/// Where `mark` occurs last in `s`.
fn find_last(s: &[char], mark: &[char]) -> (r: Option<usize>)
    ensures
        match r {
            Some(i) => last_at(s@, mark@, s@.len() as int) == Some(i as int) && i <= s@.len(),
            None => last_at(s@, mark@, s@.len() as int) is None,
        },
{
    let mut k: usize = s.len();
    while k > 0
        invariant
            k <= s@.len(),
            last_at(s@, mark@, s@.len() as int) == last_at(s@, mark@, k as int),
        decreases k,
    {
        if mark.len() <= s.len() - (k - 1) {
            let piece = text::copy_range(s, k - 1, k - 1 + mark.len());
            if text::same_chars(&piece, mark) {
                return Some(k - 1);
            }
        }
        k = k - 1;
    }
    None
}

/// The stem a thumbnail was named after.
pub fn stem_of_thumb(name: &str) -> (r: Option<String>)
    ensures
        util::opt_view(r) == thumb_stem(name@),
{
    let chars = text::to_chars(name);
    let mark = text::to_chars("_thumb.");
    match find_last(&chars, &mark) {
        Some(i) => {
            let stem = text::copy_range(&chars, 0, i);
            proof {
                assert(chars@.subrange(0, i as int) =~= chars@.take(i as int));
            }
            Some(text::from_chars(&stem))
        },
        None => None,
    }
}

/// Whether a media file with this stem is among `entries`.
fn source_exists(entries: &Vec<DirEntry>, stem: &str) -> (r: bool)
    ensures
        r == has_source(entry::entry_views(entries@), stem@),
{
    let ghost all = entry::entry_views(entries@);
    let mut i: usize = 0;
    while i < entries.len()
        invariant
            i <= entries@.len(),
            all == entry::entry_views(entries@),
            forall|j: int|
                0 <= j < i ==> !(util::media_name((#[trigger] all[j]).name) && util::stem_of(
                    all[j].name,
                ) == stem@),
        decreases entries.len() - i,
    {
        proof {
            assert(all[i as int].name == entries@[i as int].name@);
        }
        if util::is_media_file(&entries[i].name) {
            let parts = util::name_parts(&entries[i].name);
            if text::same_text(&parts.0, stem) {
                return true;
            }
        }
        i = i + 1;
    }
    false
}

/// The thumbnail one folder offers.
pub fn usable_thumb(scan: &FolderScan) -> (r: Option<String>)
    ensures
        util::opt_view(r) == thumb_in(scan@),
{
    match (&scan.entries, &scan.thumbs) {
        (Some(entries), Some(thumbs)) => {
            let sorted = entry::sort_by_name(copy_entries(thumbs));
            first_usable_name(entries, &sorted)
        },
        _ => None,
    }
}

fn first_usable_name(entries: &Vec<DirEntry>, thumbs: &Vec<DirEntry>) -> (r: Option<String>)
    ensures
        util::opt_view(r) == first_usable(
            entry::entry_views(entries@),
            entry::entry_views(thumbs@),
        ),
{
    let ghost es = entry::entry_views(entries@);
    let ghost ts = entry::entry_views(thumbs@);
    let mut i: usize = 0;
    proof {
        assert(ts.skip(0) =~= ts);
    }
    while i < thumbs.len()
        invariant
            i <= thumbs@.len(),
            es == entry::entry_views(entries@),
            ts == entry::entry_views(thumbs@),
            first_usable(es, ts) == first_usable(es, ts.skip(i as int)),
        decreases thumbs.len() - i,
    {
        let name = &thumbs[i].name;
        proof {
            assert(ts.skip(i as int).first().name == name@);
            assert(ts.skip(i as int).drop_first() =~= ts.skip(i + 1));
        }
        let chars = text::to_chars(name);
        if !(chars.len() > 0 && chars[0] == '.') {
            match stem_of_thumb(name) {
                Some(stem) => {
                    if source_exists(entries, &stem) {
                        return Some(name.clone());
                    }
                },
                None => {},
            }
        }
        i = i + 1;
    }
    None
}

fn copy_entries(entries: &Vec<DirEntry>) -> (r: Vec<DirEntry>)
    ensures
        entry::entry_views(r@) == entry::entry_views(entries@),
{
    let mut out: Vec<DirEntry> = Vec::new();
    let mut i: usize = 0;
    while i < entries.len()
        invariant
            i <= entries@.len(),
            out@.len() == i,
            forall|j: int| 0 <= j < i ==> (#[trigger] out@[j])@ == entries@[j]@,
        decreases entries.len() - i,
    {
        out.push(DirEntry { name: entries[i].name.clone(), kind: entries[i].kind });
        i = i + 1;
    }
    proof {
        assert(entry::entry_views(out@) =~= entry::entry_views(entries@));
    }
    out
}

/// The subfolders of the folder `rel`, in name order.
pub fn folders_of(rel: &str, scan: &FolderScan) -> (r: Vec<String>)
    ensures
        text::string_views(r@) == folders_in(rel@, scan@),
{
    let mut out: Vec<String> = Vec::new();
    match &scan.entries {
        Some(entries) => {
            let sorted = entry::sort_by_name(copy_entries(entries));
            let ghost all = entry::entry_views(sorted@);
            let ghost keep = |e: EntryView| entry::is_subfolder(e);
            let ghost place = |e: EntryView| entry::child_path(rel@, e.name);
            let mut i: usize = 0;
            proof {
                reveal(Seq::filter);
                assert(all.take(0).filter(keep) =~= Seq::<EntryView>::empty());
                assert(text::string_views(out@) =~= all.take(0).filter(keep).map_values(place));
            }
            while i < sorted.len()
                invariant
                    i <= sorted@.len(),
                    all == entry::entry_views(sorted@),
                    keep == (|e: EntryView| entry::is_subfolder(e)),
                    place == (|e: EntryView| entry::child_path(rel@, e.name)),
                    text::string_views(out@) == all.take(i as int).filter(keep).map_values(place),
                decreases sorted.len() - i,
            {
                let ghost before = out@;
                proof {
                    reveal(Seq::filter);
                    assert(all.take(i + 1).drop_last() =~= all.take(i as int));
                    assert(all.take(i + 1).last() == sorted@[i as int]@);
                }
                if entry::is_searchable_dir(&sorted[i]) {
                    out.push(entry::child_of(rel, &sorted[i].name));
                    proof {
                        let kept = all.take(i as int).filter(keep);
                        assert(kept.push(all[i as int]).map_values(place) =~= kept.map_values(
                            place,
                        ).push(place(all[i as int])));
                        assert(text::string_views(out@) =~= text::string_views(before).push(
                            place(all[i as int]),
                        ));
                    }
                }
                i = i + 1;
            }
            proof {
                assert(all.take(i as int) =~= all);
            }
        },
        None => {
            proof {
                assert(text::string_views(out@) =~= Seq::<Seq<char>>::empty());
            }
        },
    }
    out
}

/// Whether `name` is that of one of the entries of a listing.
pub open spec fn is_named_in(listing: Seq<EntryView>, name: Seq<char>) -> bool {
    exists|k: int| 0 <= k < listing.len() && (#[trigger] listing[k]).name == name
}

/// Whether `cover` is the path of a thumbnail in the folder `rel`: it is among
/// the thumbnails there, and its source is still in that folder.
pub open spec fn is_backed(cover: Seq<char>, rel: Seq<char>, thumb: Seq<char>, tree: Tree) -> bool {
    &&& cover == thumb_path(rel, thumb)
    &&& tree(rel).thumbs is Some && is_named_in(tree(rel).thumbs->0, thumb)
    &&& tree(rel).entries is Some && is_usable_thumb(tree(rel).entries->0, thumb)
}

/// Whether `cover` is the path of some thumbnail in reach whose source is still
/// beside it.
pub open spec fn has_backing(cover: Seq<char>, tree: Tree) -> bool {
    exists|rel: Seq<char>, thumb: Seq<char>|
        is_backed(cover, rel, thumb, tree) && is_in_reach(rel, tree)
}

/// Whether `cover` is the path of some thumbnail of a folder of this level whose
/// source is still beside it.
spec fn is_backed_in(level: Seq<Seq<char>>, cover: Seq<char>, tree: Tree) -> bool {
    exists|rel: Seq<char>, thumb: Seq<char>|
        is_backed(cover, rel, thumb, tree) && level.contains(rel)
}

proof fn lemma_usable_is_backed(entries: Seq<EntryView>, thumbs: Seq<EntryView>)
    ensures
        first_usable(entries, thumbs) is Some ==> {
            &&& is_usable_thumb(entries, first_usable(entries, thumbs)->0)
            &&& is_named_in(thumbs, first_usable(entries, thumbs)->0)
        },
    decreases thumbs.len(),
{
    if thumbs.len() > 0 {
        let rest = thumbs.drop_first();
        lemma_usable_is_backed(entries, rest);
        assert(thumbs[0] == thumbs.first());
        if !is_usable_thumb(entries, thumbs.first().name) && first_usable(entries, rest) is Some {
            let name = first_usable(entries, rest)->0;
            let k = choose|k: int| 0 <= k < rest.len() && (#[trigger] rest[k]).name == name;
            assert(thumbs[k + 1].name == name);
        }
    }
}

/// Ordering a listing leaves the names in it as they are.
proof fn lemma_named_in_order(listing: Seq<EntryView>, name: Seq<char>)
    requires
        is_named_in(entry::by_name(listing), name),
    ensures
        is_named_in(listing, name),
{
    let ordered = entry::by_name(listing);
    let k = choose|k: int| 0 <= k < ordered.len() && (#[trigger] ordered[k]).name == name;
    let e = ordered[k];
    entry::law_ordering_by_name(listing);
    ordered.to_multiset_ensures();
    listing.to_multiset_ensures();
    assert(ordered.contains(e));
    assert(listing.to_multiset().count(e) > 0);
    let i = choose|i: int| 0 <= i < listing.len() && listing[i] == e;
    assert(listing[i].name == name);
}

proof fn lemma_first_of_is_backed(level: Seq<Seq<char>>, tree: Tree)
    ensures
        first_of(level, tree) is Some ==> is_backed_in(level, first_of(level, tree)->0, tree),
    decreases level.len(),
{
    if level.len() > 0 {
        let scan = tree(level.first());
        match thumb_in(scan) {
            Some(thumb) => {
                lemma_usable_is_backed(scan.entries->0, entry::by_name(scan.thumbs->0));
                lemma_named_in_order(scan.thumbs->0, thumb);
                let cover = thumb_path(level.first(), thumb);
                assert(first_of(level, tree) == Some(cover));
                assert(level.contains(level[0]));
                assert(is_backed(cover, level.first(), thumb, tree));
            },
            None => {
                lemma_first_of_is_backed(level.drop_first(), tree);
                let rest = level.drop_first();
                assert(first_of(level, tree) == first_of(rest, tree));
                if first_of(rest, tree) is Some {
                    let cover = first_of(rest, tree)->0;
                    let (rel, thumb) = choose|rel: Seq<char>, thumb: Seq<char>|
                        is_backed(cover, rel, thumb, tree) && rest.contains(rel);
                    let i = choose|i: int| 0 <= i < rest.len() && rest[i] == rel;
                    assert(level[i + 1] == rel);
                    assert(level.contains(rel));
                }
            },
        }
    }
}

/// A cover is only offered while its source exists: the thumbnail found is there
/// and not hidden, and the media file it is named after is in the folder it was found
/// in, which is the one searched, a child or a grandchild.
pub proof fn law_a_cover_has_its_source(tree: Tree)
    ensures
        first_thumb(tree) is Some ==> has_backing(first_thumb(tree)->0, tree),
{
    let top = seq![Seq::<char>::empty()];
    let children = level_below(top, tree);
    let grandchildren = level_below(children, tree);
    reveal_with_fuel(search_from, 4);
    lemma_first_of_is_backed(top, tree);
    lemma_first_of_is_backed(children, tree);
    lemma_first_of_is_backed(grandchildren, tree);
}

/// Whether `rel` is the folder searched, one of its children or one of its
/// grandchildren.
pub open spec fn is_in_reach(rel: Seq<char>, tree: Tree) -> bool {
    let top = seq![Seq::<char>::empty()];
    let children = level_below(top, tree);
    let grandchildren = level_below(children, tree);
    top.contains(rel) || children.contains(rel) || grandchildren.contains(rel)
}

proof fn lemma_first_of(level: Seq<Seq<char>>, tree: Tree, rel: Seq<char>)
    requires
        first_of(level, tree) is None,
        level.contains(rel),
    ensures
        thumb_in(tree(rel)) is None,
    decreases level.len(),
{
    let i = choose|i: int| 0 <= i < level.len() && level[i] == rel;
    if i > 0 {
        assert(level.drop_first()[i - 1] == rel);
        lemma_first_of(level.drop_first(), tree, rel);
    }
}

/// No cover is missed: where a search finds none, neither the folder nor any of
/// its children or grandchildren offers one.
pub proof fn law_no_cover_in_reach_is_missed(tree: Tree, rel: Seq<char>)
    requires
        first_thumb(tree) is None,
        is_in_reach(rel, tree),
    ensures
        thumb_in(tree(rel)) is None,
{
    let top = seq![Seq::<char>::empty()];
    let children = level_below(top, tree);
    let grandchildren = level_below(children, tree);
    reveal_with_fuel(search_from, 4);
    if top.contains(rel) {
        lemma_first_of(top, tree, rel);
    } else if children.contains(rel) {
        lemma_first_of(children, tree, rel);
    } else {
        lemma_first_of(grandchildren, tree, rel);
    }
}

/// A thumbnail of the folder itself is preferred to any further down.
pub proof fn law_the_folder_itself_comes_first(tree: Tree)
    ensures
        thumb_in(tree(Seq::<char>::empty())) matches Some(thumb) ==> first_thumb(tree) == Some(
            "thumbs/"@ + thumb,
        ),
{
}

/// Whether an image path is in the form in which paths are stored: its segments
/// are names, and none holds a backslash.
pub open spec fn is_stored_form(image: Seq<char>) -> bool {
    &&& path::is_plain_path(image)
    &&& path::segments(image).last() != path::dot_dot()
    &&& !image.contains('\\')
}

/// The thumbnail of an image in stored form, given from the album root.
proof fn lemma_full_cover(image: Seq<char>)
    requires
        is_stored_form(image),
    ensures
        cover_thumb(Seq::<char>::empty(), image) == Some(
            if path::segments(image).len() == 1 {
                "thumbs/"@ + util::thumb_name_of(path::segments(image).last())
            } else {
                text::join(path::segments(image).drop_last(), '/') + "/thumbs/"@
                    + util::thumb_name_of(path::segments(image).last())
            },
        ),
{
    let parts = path::segments(image);
    let front = parts.drop_last();
    path::lemma_plain_path(image);
    text::lemma_split_pieces(image, '/');
    text::lemma_join_split(image, '/');
    if parts.len() == 1 {
        assert(front =~= Seq::<Seq<char>>::empty());
    } else {
        let parent = text::join(front, '/');
        assert(path::is_plain(parts[0]));
        assert(front[0] == parts[0]);
        assert(parent.len() > 0);
        assert(!parent.contains('\\')) by {
            if parent.contains('\\') {
                let k = choose|k: int| 0 <= k < parent.len() && parent[k] == '\\';
                assert(image[k] == '\\');
            }
        }
        text::lemma_replaced_absent(parent, '\\', seq!['/']);
    }
}

/// A cover is the same thumbnail from wherever it is seen: given from a folder
/// that holds the image, and put behind the path of that folder, it is what it is
/// from the album root. From a folder that does not hold the image, even one whose
/// name begins alike, it is given in full.
pub proof fn law_a_cover_is_the_same_from_every_ancestor(folder: Seq<char>, image: Seq<char>)
    requires
        is_stored_form(image),
    ensures
        ({
            let full = cover_thumb(Seq::<char>::empty(), image);
            let seen = cover_thumb(folder, image);
            let inside = folder.len() > 0 && (folder + "/"@).is_prefix_of(image);
            &&& full is Some
            &&& inside ==> seen is Some && folder + "/"@ + seen->0 == full->0
            &&& !inside ==> seen == full
        }),
{
    reveal_strlit("/");
    reveal_strlit("/thumbs/");
    reveal_strlit("thumbs/");
    lemma_full_cover(image);
    let prefix = folder.push('/');
    assert(prefix =~= folder + "/"@);
    if folder.len() > 0 && prefix.is_prefix_of(image) {
        let rest = image.skip(prefix.len() as int);
        let a = path::segments(folder);
        let b = path::segments(rest);
        let all = path::segments(image);
        assert(prefix =~= image.subrange(0, prefix.len() as int));
        assert(image =~= prefix + rest);
        text::lemma_split_append(folder, rest, '/');
        text::lemma_split_pieces(folder, '/');
        text::lemma_split_pieces(rest, '/');
        text::lemma_join_split(folder, '/');
        assert(all =~= a + b);
        assert(is_stored_form(rest)) by {
            assert forall|i: int| 0 <= i < b.len() implies path::is_plain(#[trigger] b[i]) by {
                assert(all[a.len() + i] == b[i]);
            }
            assert(b.last() == all.last());
            if rest.contains('\\') {
                let k = choose|k: int| 0 <= k < rest.len() && rest[k] == '\\';
                assert(image[prefix.len() + k] == '\\');
            }
        }
        lemma_full_cover(rest);
        path::lemma_plain_path(rest);
        assert(cover_thumb(folder, image) == cover_thumb(Seq::<char>::empty(), rest));
        assert(all.drop_last() =~= a + b.drop_last());
        let thumb = util::thumb_name_of(all.last());
        if b.len() == 1 {
            assert(a + b.drop_last() =~= a);
            assert(folder + "/"@ + ("thumbs/"@ + thumb) =~= folder + "/thumbs/"@ + thumb);
        } else {
            text::lemma_join_append(a, b.drop_last(), '/');
            let below = text::join(b.drop_last(), '/');
            assert(folder + "/"@ + (below + "/thumbs/"@ + thumb) =~= (folder.push('/') + below)
                + "/thumbs/"@ + thumb);
        }
    }
}

/// The extension of a thumbnail has no dot, and that of a name with an extension
/// is that of an image.
proof fn lemma_thumb_extension(name: Seq<char>)
    requires
        util::media_name(name),
        !name.contains('/'),
    ensures
        !util::thumb_extension_of(name).contains('.'),
        util::video_name(name) || util::extension_of(name).len() > 0
            ==> util::image_extension(util::thumb_extension_of(name)),
{
    reveal_strlit("jpg");
    reveal_strlit("jpeg");
    reveal_strlit("png");
    reveal_strlit("webp");
    text::lemma_split_plain(name, '/');
    let none = Seq::<char>::empty();
    assert(text::lowercase(none) =~= none);
    let parts = path::segments(name);
    assert(parts.drop_first() =~= Seq::<Seq<char>>::empty());
    assert(path::body(parts).last() == name);
    if !util::video_name(name) {
        let pieces = text::split(name, '.');
        assert(util::extension_of(name) == none || util::extension_of(name) == pieces.last());
    }
}

/// `mark` is found where it was put, when it ends in a dot and no dot follows.
proof fn lemma_last_mark(stem: Seq<char>, ext: Seq<char>, k: int)
    requires
        !ext.contains('.'),
        stem.len() < k <= (stem + "_thumb."@ + ext).len(),
    ensures
        last_at(stem + "_thumb."@ + ext, "_thumb."@, k) == Some(stem.len() as int),
    decreases k,
{
    reveal_strlit("_thumb.");
    let mark = "_thumb."@;
    let all = stem + mark + ext;
    let at = k - 1;
    if at > stem.len() {
        if at + mark.len() <= all.len() && all.subrange(at, at + mark.len()) == mark {
            assert(all.subrange(at, at + mark.len())[6] == '.');
            assert(ext[at - stem.len() - 1] == '.');
        }
        lemma_last_mark(stem, ext, k - 1);
    } else {
        assert(all.subrange(at, at + mark.len()) =~= mark);
    }
}

/// The thumbnail name of a media file is its stem and the extension of the
/// thumbnail, around the mark of a thumbnail, and cutting it at the last mark gives
/// the stem back. Where the file has an extension the thumbnail is an image.
pub proof fn law_thumbnail_names_give_the_stem_back(name: Seq<char>)
    requires
        util::media_name(name),
        !name.contains('/'),
    ensures
        util::thumb_name_of(name) == util::stem_of(name) + "_thumb."@
            + util::thumb_extension_of(name),
        thumb_stem(util::thumb_name_of(name)) == Some(util::stem_of(name)),
        util::video_name(name) || util::extension_of(name).len() > 0 ==> util::image_name(
            util::thumb_name_of(name),
        ),
{
    reveal_strlit("_thumb.");
    reveal_strlit("_thumb.jpg");
    reveal_strlit("jpg");
    let stem = util::stem_of(name);
    let ext = util::thumb_extension_of(name);
    let thumb = util::thumb_name_of(name);
    assert("_thumb.jpg"@ =~= "_thumb."@ + "jpg"@);
    assert(thumb =~= stem + "_thumb."@ + ext);
    lemma_thumb_extension(name);
    lemma_last_mark(stem, ext, thumb.len() as int);
    assert(thumb.take(stem.len() as int) =~= stem);
    if util::image_extension(ext) {
        reveal_strlit("jpeg");
        reveal_strlit("png");
        reveal_strlit("webp");
        let front = stem + "_thumb."@.drop_last();
        assert(thumb =~= front.push('.') + ext);
        text::lemma_split_append(front, ext, '.');
        text::lemma_split_plain(ext, '.');
        assert(text::split(thumb, '.').last() == ext);
        assert(text::lowercase(ext) =~= ext);
    }
}

/// Two media files in one folder share a thumbnail exactly where their stems and
/// the extensions of their thumbnails agree. So two videos of one stem do, whatever
/// their containers, and two images whose extensions differ in case only.
pub proof fn law_thumbnails_are_shared_exactly_by_stem(a: Seq<char>, b: Seq<char>)
    requires
        util::media_name(a),
        util::media_name(b),
        !a.contains('/'),
        !b.contains('/'),
    ensures
        util::thumb_name_of(a) == util::thumb_name_of(b) <==> util::stem_of(a) == util::stem_of(b)
            && util::thumb_extension_of(a) == util::thumb_extension_of(b),
{
    law_thumbnail_names_give_the_stem_back(a);
    law_thumbnail_names_give_the_stem_back(b);
    let x = util::thumb_extension_of(a);
    let y = util::thumb_extension_of(b);
    let front = util::stem_of(a) + "_thumb."@;
    assert((front + x).skip(front.len() as int) =~= x);
    assert((front + y).skip(front.len() as int) =~= y);
}

/// Whether `thumb` is called after the source `source`: it is its stem, the mark of
/// a thumbnail, and an extension.
pub open spec fn is_called_after(thumb: Seq<char>, source: Seq<char>) -> bool {
    exists|ext: Seq<char>|
        !ext.contains('.') && thumb == #[trigger] (util::stem_of(source) + "_thumb."@ + ext)
}

/// Whether the folder `rel` holds a thumbnail `thumb` that is not hidden, beside a
/// media file that it is called after.
pub open spec fn holds_thumb(tree: Tree, rel: Seq<char>, thumb: Seq<char>) -> bool {
    &&& tree(rel).entries is Some && tree(rel).thumbs is Some
    &&& is_named_in(tree(rel).thumbs->0, thumb)
    &&& thumb.len() > 0 && thumb[0] != '.'
    &&& exists|source: Seq<char>| #[trigger]
        is_named_in(tree(rel).entries->0, source) && util::media_name(source) && is_called_after(
            thumb,
            source,
        )
}

/// Whether `child` is the path of a folder directly in the folder `parent`: a real
/// directory that is neither hidden nor one of thumbnails.
pub open spec fn is_child(tree: Tree, parent: Seq<char>, child: Seq<char>) -> bool {
    &&& tree(parent).entries is Some
    &&& exists|e: EntryView| #[trigger]
        tree(parent).entries->0.contains(e) && e.kind == EntryKind::Dir && !(e.name.len() > 0
            && e.name[0] == '.') && e.name != "thumbs"@ && child == entry::child_path(
            parent,
            e.name,
        )
}

/// The mark found last is really there.
proof fn lemma_last_at(s: Seq<char>, mark: Seq<char>, k: int)
    ensures
        last_at(s, mark, k) matches Some(i) ==> 0 <= i < k && i + mark.len() <= s.len()
            && s.subrange(i, i + mark.len()) == mark,
        last_at(s, mark, k) is None ==> forall|i: int|
            0 <= i < k && i + mark.len() <= s.len() ==> #[trigger] s.subrange(i, i + mark.len())
                != mark,
        last_at(s, mark, k) matches Some(i) ==> forall|j: int|
            i < j < k && j + mark.len() <= s.len() ==> #[trigger] s.subrange(j, j + mark.len())
                != mark,
    decreases k,
{
    if k > 0 {
        lemma_last_at(s, mark, k - 1);
    }
}

/// A thumbnail is usable where a media file it is called after is among the
/// entries, and it is not hidden.
proof fn lemma_usable(entries: Seq<EntryView>, thumb: Seq<char>, source: Seq<char>)
    requires
        is_named_in(entries, source),
        util::media_name(source),
        is_called_after(thumb, source),
        thumb.len() > 0,
        thumb[0] != '.',
    ensures
        is_usable_thumb(entries, thumb),
{
    let stem = util::stem_of(source);
    let ext = choose|ext: Seq<char>|
        !ext.contains('.') && thumb == #[trigger] (stem + "_thumb."@ + ext);
    reveal_strlit("_thumb.");
    lemma_last_mark(stem, ext, thumb.len() as int);
    assert(thumb.take(stem.len() as int) =~= stem);
    let k = choose|k: int| 0 <= k < entries.len() && (#[trigger] entries[k]).name == source;
    assert(util::stem_of(entries[k].name) == stem);
}

proof fn lemma_first_usable(entries: Seq<EntryView>, thumbs: Seq<EntryView>, name: Seq<char>)
    requires
        is_named_in(thumbs, name),
        is_usable_thumb(entries, name),
    ensures
        first_usable(entries, thumbs) is Some,
        entry::is_ordered(thumbs) ==> text::text_le(first_usable(entries, thumbs)->0, name),
    decreases thumbs.len(),
{
    let k = choose|k: int| 0 <= k < thumbs.len() && (#[trigger] thumbs[k]).name == name;
    let rest = thumbs.drop_first();
    text::lemma_text_le_total(name, name);
    if is_usable_thumb(entries, thumbs.first().name) {
        if k > 0 && entry::is_ordered(thumbs) {
            assert(text::text_le(thumbs[0].name, thumbs[k].name));
        }
    } else {
        assert(k > 0);
        assert(rest[k - 1].name == name);
        if entry::is_ordered(thumbs) {
            assert(entry::is_ordered(rest)) by {
                assert forall|i: int, j: int| 0 <= i < j < rest.len() implies text::text_le(
                    (#[trigger] rest[i]).name,
                    (#[trigger] rest[j]).name,
                ) by {
                    assert(text::text_le(thumbs[i + 1].name, thumbs[j + 1].name));
                }
            }
        }
        lemma_first_usable(entries, rest, name);
    }
}

/// Ordering a listing loses no name.
proof fn lemma_named_after_ordering(listing: Seq<EntryView>, name: Seq<char>)
    requires
        is_named_in(listing, name),
    ensures
        is_named_in(entry::by_name(listing), name),
{
    let ordered = entry::by_name(listing);
    let k = choose|k: int| 0 <= k < listing.len() && (#[trigger] listing[k]).name == name;
    let e = listing[k];
    entry::law_ordering_by_name(listing);
    ordered.to_multiset_ensures();
    listing.to_multiset_ensures();
    assert(listing.contains(e));
    assert(ordered.to_multiset().count(e) > 0);
    let i = choose|i: int| 0 <= i < ordered.len() && ordered[i] == e;
    assert(ordered[i].name == name);
}

/// What a folder offers: a thumbnail in it whose source is beside it, whether that
/// is an image or a video, and of several the first by name. A folder that holds
/// such a thumbnail never offers nothing.
pub proof fn law_a_folder_offers_its_first_thumbnail(tree: Tree, rel: Seq<char>, thumb: Seq<char>)
    ensures
        holds_thumb(tree, rel, thumb) ==> thumb_in(tree(rel)) is Some && text::text_le(
            thumb_in(tree(rel))->0,
            thumb,
        ),
{
    if holds_thumb(tree, rel, thumb) {
        let entries = tree(rel).entries->0;
        let thumbs = tree(rel).thumbs->0;
        let source = choose|source: Seq<char>| #[trigger]
            is_named_in(entries, source) && util::media_name(source) && is_called_after(
                thumb,
                source,
            );
        lemma_usable(entries, thumb, source);
        lemma_named_after_ordering(thumbs, thumb);
        entry::law_ordering_by_name(thumbs);
        lemma_first_usable(entries, entry::by_name(thumbs), thumb);
    }
}

/// What a folder offers is in its folder of thumbnails, is not hidden, and has the
/// stem of a media file of that folder before its last mark.
pub proof fn law_what_a_folder_offers_is_there(tree: Tree, rel: Seq<char>)
    ensures
        thumb_in(tree(rel)) matches Some(thumb) ==> {
            &&& tree(rel).entries is Some && tree(rel).thumbs is Some
            &&& is_named_in(tree(rel).thumbs->0, thumb)
            &&& !(thumb.len() > 0 && thumb[0] == '.')
            &&& exists|source: Seq<char>, ext: Seq<char>|
                is_named_in(tree(rel).entries->0, source) && util::media_name(source) && thumb
                    == #[trigger] (util::stem_of(source) + "_thumb."@ + ext)
        },
{
    if thumb_in(tree(rel)) is Some {
        let entries = tree(rel).entries->0;
        let thumbs = tree(rel).thumbs->0;
        let thumb = thumb_in(tree(rel))->0;
        let mark = "_thumb."@;
        lemma_usable_is_backed(entries, entry::by_name(thumbs));
        lemma_named_in_order(thumbs, thumb);
        lemma_last_at(thumb, mark, thumb.len() as int);
        let at = last_at(thumb, mark, thumb.len() as int)->0;
        let stem = thumb_stem(thumb)->0;
        let i = choose|i: int|
            0 <= i < entries.len() && util::media_name((#[trigger] entries[i]).name)
                && util::stem_of(entries[i].name) == stem;
        let source = entries[i].name;
        let ext = thumb.skip(at + mark.len());
        assert(thumb =~= stem + thumb.subrange(at, at + mark.len()) + ext);
        assert(is_named_in(entries, source));
        assert(thumb == util::stem_of(source) + "_thumb."@ + ext);
    }
}

/// Every media file, image or video, gives its folder a cover through the thumbnail
/// that is made of it: where the file is among the entries and its thumbnail in
/// `thumbs`, the thumbnail is usable, and the search ends with a cover.
pub proof fn law_every_media_file_gives_a_cover(tree: Tree, rel: Seq<char>, source: Seq<char>)
    requires
        is_in_reach(rel, tree),
        tree(rel).entries is Some,
        tree(rel).thumbs is Some,
        is_named_in(tree(rel).entries->0, source),
        is_named_in(tree(rel).thumbs->0, util::thumb_name_of(source)),
        util::image_name(source) || util::video_name(source),
        !source.contains('/'),
        source[0] != '.',
    ensures
        is_usable_thumb(tree(rel).entries->0, util::thumb_name_of(source)),
        holds_thumb(tree, rel, util::thumb_name_of(source)),
        thumb_in(tree(rel)) is Some,
        first_thumb(tree) is Some,
{
    let thumb = util::thumb_name_of(source);
    let stem = util::stem_of(source);
    let ext = util::thumb_extension_of(source);
    reveal_strlit("_thumb.");
    law_thumbnail_names_give_the_stem_back(source);
    lemma_thumb_extension(source);
    assert(thumb == stem + "_thumb."@ + ext);
    assert(is_called_after(thumb, source));
    lemma_stem_begins(source);
    assert(thumb[0] != '.');
    assert(holds_thumb(tree, rel, thumb));
    lemma_usable(tree(rel).entries->0, thumb, source);
    law_a_folder_offers_its_first_thumbnail(tree, rel, thumb);
    if first_thumb(tree) is None {
        law_no_cover_in_reach_is_missed(tree, rel);
    }
}

/// The stem of a bare name that is not hidden is not hidden either.
proof fn lemma_stem_begins(name: Seq<char>)
    requires
        !name.contains('/'),
        name[0] != '.',
    ensures
        util::stem_of(name).len() > 0 ==> util::stem_of(name)[0] != '.',
{
    text::lemma_split_plain(name, '/');
    let parts = path::segments(name);
    assert(parts.drop_first() =~= Seq::<Seq<char>>::empty());
    assert(path::body(parts).last() == name);
    let pieces = text::split(name, '.');
    text::lemma_split_pieces(name, '.');
    text::lemma_join_split(name, '.');
    if pieces.len() > 1 {
        let front = text::join(pieces.drop_last(), '.');
        assert(name =~= front.push('.') + pieces.last());
        if front.len() > 0 {
            assert(front[0] == name[0]);
        }
    }
}

proof fn lemma_level_below(level: Seq<Seq<char>>, tree: Tree, rel: Seq<char>)
    ensures
        level_below(level, tree).contains(rel) <==> exists|p: Seq<char>|
            level.contains(p) && #[trigger] folders_in(p, tree(p)).contains(rel),
    decreases level.len(),
{
    if level.len() > 0 {
        let first = level.first();
        let rest = level.drop_first();
        let here = folders_in(first, tree(first));
        let below = level_below(rest, tree);
        lemma_level_below(rest, tree, rel);
        assert(level[0] == first);
        assert forall|p: Seq<char>| #[trigger] level.contains(p) <==> p == first || rest.contains(
            p,
        ) by {
            if level.contains(p) {
                let i = choose|i: int| 0 <= i < level.len() && level[i] == p;
                if i > 0 {
                    assert(rest[i - 1] == p);
                }
            }
            if rest.contains(p) {
                let i = choose|i: int| 0 <= i < rest.len() && rest[i] == p;
                assert(level[i + 1] == p);
            }
        }
        assert((here + below).contains(rel) <==> here.contains(rel) || below.contains(rel)) by {
            if here.contains(rel) {
                let i = choose|i: int| 0 <= i < here.len() && here[i] == rel;
                assert((here + below)[i] == rel);
            }
            if below.contains(rel) {
                let i = choose|i: int| 0 <= i < below.len() && below[i] == rel;
                assert((here + below)[here.len() + i] == rel);
            }
            if (here + below).contains(rel) {
                let i = choose|i: int| 0 <= i < (here + below).len() && (here + below)[i] == rel;
                if i < here.len() {
                    assert(here[i] == rel);
                } else {
                    assert(below[i - here.len()] == rel);
                }
            }
        }
    }
}

proof fn lemma_children(tree: Tree, parent: Seq<char>, child: Seq<char>)
    ensures
        folders_in(parent, tree(parent)).contains(child) <==> is_child(tree, parent, child),
{
    if tree(parent).entries is Some {
        let entries = tree(parent).entries->0;
        listing::law_every_subfolder_is_listed(parent, entries, child);
        if listing::is_folder_at(parent, entries, child) {
            let e = choose|e: EntryView| #[trigger]
                entries.contains(e) && entry::is_subfolder(e) && entry::child_path(parent, e.name)
                    == child;
            assert(entries.contains(e));
        }
        if is_child(tree, parent, child) {
            let e = choose|e: EntryView| #[trigger]
                entries.contains(e) && e.kind == EntryKind::Dir && !(e.name.len() > 0 && e.name[0]
                    == '.') && e.name != "thumbs"@ && child == entry::child_path(parent, e.name);
            assert(entries.contains(e));
            assert(entry::is_subfolder(e));
        }
    }
}

/// The folders searched are the folder itself, its children and its grandchildren,
/// and no others.
pub proof fn law_a_search_goes_three_levels_deep(tree: Tree, rel: Seq<char>)
    ensures
        is_in_reach(rel, tree) <==> rel.len() == 0 || is_child(tree, Seq::empty(), rel) || exists|
            c: Seq<char>,
        |
            is_child(tree, Seq::empty(), c) && #[trigger] is_child(tree, c, rel),
{
    let root = Seq::<char>::empty();
    let top = seq![root];
    let children = level_below(top, tree);
    lemma_level_below(top, tree, rel);
    lemma_level_below(children, tree, rel);
    assert(top[0] == root);
    assert(top.contains(rel) <==> rel.len() == 0) by {
        if rel.len() == 0 {
            assert(rel =~= root);
        }
    }
    assert forall|c: Seq<char>| #[trigger] children.contains(c) <==> is_child(tree, root, c) by {
        lemma_level_below(top, tree, c);
        lemma_children(tree, root, c);
        if children.contains(c) {
            let p = choose|p: Seq<char>|
                top.contains(p) && #[trigger] folders_in(p, tree(p)).contains(c);
            assert(p == root);
        }
        if is_child(tree, root, c) {
            assert(folders_in(root, tree(root)).contains(c));
        }
    }
    if level_below(children, tree).contains(rel) {
        let c = choose|p: Seq<char>|
            children.contains(p) && #[trigger] folders_in(p, tree(p)).contains(rel);
        lemma_children(tree, c, rel);
        assert(is_child(tree, root, c) && is_child(tree, c, rel));
    }
    if exists|c: Seq<char>| is_child(tree, root, c) && #[trigger] is_child(tree, c, rel) {
        let c = choose|c: Seq<char>| is_child(tree, root, c) && #[trigger] is_child(tree, c, rel);
        lemma_children(tree, c, rel);
        assert(children.contains(c));
        assert(folders_in(c, tree(c)).contains(rel));
    }
}

/// Whether a search of these folders ends at the folder `at`.
spec fn ends_at(level: Seq<Seq<char>>, tree: Tree, at: Seq<char>) -> bool {
    &&& level.contains(at)
    &&& thumb_in(tree(at)) is Some
    &&& first_of(level, tree) == Some(thumb_path(at, thumb_in(tree(at))->0))
}

spec fn are_ordered(level: Seq<Seq<char>>) -> bool {
    forall|i: int, j: int|
        0 <= i < j < level.len() ==> text::text_le(#[trigger] level[i], #[trigger] level[j])
}

/// A search of ordered folders ends at one that is not behind any that offers a
/// thumbnail.
proof fn lemma_ends_first(level: Seq<Seq<char>>, tree: Tree, rel: Seq<char>)
    requires
        are_ordered(level),
        level.contains(rel),
        thumb_in(tree(rel)) is Some,
    ensures
        exists|at: Seq<char>| #[trigger] ends_at(level, tree, at) && text::text_le(at, rel),
    decreases level.len(),
{
    let k = choose|k: int| 0 <= k < level.len() && level[k] == rel;
    let first = level.first();
    let rest = level.drop_first();
    assert(level[0] == first);
    text::lemma_text_le_total(first, first);
    if thumb_in(tree(first)) is Some {
        assert(level.contains(first));
        assert(ends_at(level, tree, first));
        if k > 0 {
            assert(text::text_le(level[0], level[k]));
        }
    } else {
        assert(rest[k - 1] == rel);
        assert(are_ordered(rest)) by {
            assert forall|i: int, j: int| 0 <= i < j < rest.len() implies text::text_le(
                #[trigger] rest[i],
                #[trigger] rest[j],
            ) by {
                assert(text::text_le(level[i + 1], level[j + 1]));
            }
        }
        lemma_ends_first(rest, tree, rel);
        let at = choose|at: Seq<char>| #[trigger] ends_at(rest, tree, at) && text::text_le(at, rel);
        let i = choose|i: int| 0 <= i < rest.len() && rest[i] == at;
        assert(level[i + 1] == at);
        assert(ends_at(level, tree, at));
    }
}

proof fn lemma_folders_are_ordered(rel: Seq<char>, scan: Scan)
    ensures
        are_ordered(folders_in(rel, scan)),
{
    if scan.entries is Some {
        let all = folders_in(rel, scan);
        assert forall|i: int, j: int| 0 <= i < j < all.len() implies text::text_le(
            #[trigger] all[i],
            #[trigger] all[j],
        ) by {
            listing::law_listings_are_in_name_order(rel, scan.entries->0, i, j);
        }
    }
}

/// Whether the cover of the folder searched is the one that its child `at` offers.
pub open spec fn is_cover_of(tree: Tree, at: Seq<char>) -> bool {
    thumb_in(tree(at)) is Some && first_thumb(tree) == Some(
        thumb_path(at, thumb_in(tree(at))->0),
    )
}

/// Children are searched in name order: where the folder itself offers nothing, and
/// a child does, the cover is that of a child, and that child is not behind it.
pub proof fn law_the_first_child_by_name_wins(tree: Tree, child: Seq<char>)
    requires
        thumb_in(tree(Seq::empty())) is None,
        is_child(tree, Seq::empty(), child),
        thumb_in(tree(child)) is Some,
    ensures
        exists|at: Seq<char>| #[trigger]
            is_cover_of(tree, at) && is_child(tree, Seq::empty(), at) && text::text_le(at, child),
{
    let root = Seq::<char>::empty();
    let top = seq![root];
    let children = level_below(top, tree);
    let here = folders_in(root, tree(root));
    reveal_with_fuel(search_from, 4);
    reveal_with_fuel(level_below, 3);
    assert(top.drop_first() =~= Seq::<Seq<char>>::empty());
    assert(children =~= here);
    assert(first_of(top, tree) is None) by {
        reveal_with_fuel(first_of, 3);
        assert(top.first() == root);
    }
    lemma_children(tree, root, child);
    lemma_folders_are_ordered(root, tree(root));
    lemma_ends_first(children, tree, child);
    let at = choose|at: Seq<char>| #[trigger]
        ends_at(children, tree, at) && text::text_le(at, child);
    lemma_children(tree, root, at);
    assert(is_cover_of(tree, at));
}

proof fn lemma_first_of_append(a: Seq<Seq<char>>, b: Seq<Seq<char>>, tree: Tree)
    ensures
        first_of(a + b, tree) == if first_of(a, tree) is Some {
            first_of(a, tree)
        } else {
            first_of(b, tree)
        },
    decreases a.len(),
{
    if a.len() == 0 {
        assert(a + b =~= b);
    } else {
        lemma_first_of_append(a.drop_first(), b, tree);
        assert((a + b).drop_first() =~= a.drop_first() + b);
        assert((a + b).first() == a.first());
    }
}

/// Whether a search below these folders ends at `at`, a folder in `parent`.
spec fn ends_below(level: Seq<Seq<char>>, tree: Tree, parent: Seq<char>, at: Seq<char>) -> bool {
    &&& level.contains(parent)
    &&& folders_in(parent, tree(parent)).contains(at)
    &&& thumb_in(tree(at)) is Some
    &&& first_of(level_below(level, tree), tree) == Some(thumb_path(at, thumb_in(tree(at))->0))
}

proof fn lemma_ends_below(level: Seq<Seq<char>>, tree: Tree, parent: Seq<char>, rel: Seq<char>)
    requires
        are_ordered(level),
        level.contains(parent),
        folders_in(parent, tree(parent)).contains(rel),
        thumb_in(tree(rel)) is Some,
    ensures
        exists|p: Seq<char>, at: Seq<char>| #[trigger]
            ends_below(level, tree, p, at) && text::text_le(p, parent) && (p == parent
                ==> text::text_le(at, rel)),
    decreases level.len(),
{
    let k = choose|k: int| 0 <= k < level.len() && level[k] == parent;
    let first = level.first();
    let rest = level.drop_first();
    let here = folders_in(first, tree(first));
    let below = level_below(rest, tree);
    assert(level[0] == first);
    assert(level.contains(first));
    lemma_first_of_append(here, below, tree);
    lemma_folders_are_ordered(first, tree(first));
    text::lemma_text_le_total(first, first);
    if k > 0 {
        assert(text::text_le(level[0], level[k]));
    }
    if first == parent {
        lemma_ends_first(here, tree, rel);
        let at = choose|at: Seq<char>| #[trigger] ends_at(here, tree, at) && text::text_le(at, rel);
        assert(ends_below(level, tree, first, at));
    } else if first_of(here, tree) is Some {
        lemma_ends_somewhere(here, tree);
        let at = choose|at: Seq<char>| #[trigger] ends_at(here, tree, at);
        assert(ends_below(level, tree, first, at));
    } else {
        assert(rest[k - 1] == parent);
        assert(are_ordered(rest)) by {
            assert forall|i: int, j: int| 0 <= i < j < rest.len() implies text::text_le(
                #[trigger] rest[i],
                #[trigger] rest[j],
            ) by {
                assert(text::text_le(level[i + 1], level[j + 1]));
            }
        }
        lemma_ends_below(rest, tree, parent, rel);
        let (p, at) = choose|p: Seq<char>, at: Seq<char>| #[trigger]
            ends_below(rest, tree, p, at) && text::text_le(p, parent) && (p == parent
                ==> text::text_le(at, rel));
        let i = choose|i: int| 0 <= i < rest.len() && rest[i] == p;
        assert(level[i + 1] == p);
        assert(ends_below(level, tree, p, at));
    }
}

proof fn lemma_ends_somewhere(level: Seq<Seq<char>>, tree: Tree)
    requires
        first_of(level, tree) is Some,
    ensures
        exists|at: Seq<char>| #[trigger] ends_at(level, tree, at),
    decreases level.len(),
{
    let first = level.first();
    let rest = level.drop_first();
    assert(level[0] == first);
    if thumb_in(tree(first)) is Some {
        assert(level.contains(first));
        assert(ends_at(level, tree, first));
    } else {
        lemma_ends_somewhere(rest, tree);
        let at = choose|at: Seq<char>| #[trigger] ends_at(rest, tree, at);
        let i = choose|i: int| 0 <= i < rest.len() && rest[i] == at;
        assert(level[i + 1] == at);
        assert(ends_at(level, tree, at));
    }
}

/// Grandchildren are searched last, by the names of their parents and then by their
/// own: where neither the folder nor a child offers anything, and a grandchild does,
/// the cover is that of a grandchild that is not behind it.
pub proof fn law_the_first_grandchild_by_name_wins(
    tree: Tree,
    child: Seq<char>,
    grandchild: Seq<char>,
)
    requires
        thumb_in(tree(Seq::empty())) is None,
        forall|c: Seq<char>| #[trigger]
            is_child(tree, Seq::empty(), c) ==> thumb_in(tree(c)) is None,
        is_child(tree, Seq::empty(), child),
        is_child(tree, child, grandchild),
        thumb_in(tree(grandchild)) is Some,
    ensures
        exists|p: Seq<char>, at: Seq<char>|
            is_child(tree, Seq::empty(), p) && #[trigger] is_child(tree, p, at) && is_cover_of(
                tree,
                at,
            ) && text::text_le(p, child) && (p == child ==> text::text_le(at, grandchild)),
{
    let root = Seq::<char>::empty();
    let top = seq![root];
    let children = level_below(top, tree);
    let here = folders_in(root, tree(root));
    reveal_with_fuel(search_from, 4);
    reveal_with_fuel(level_below, 3);
    assert(top.drop_first() =~= Seq::<Seq<char>>::empty());
    assert(children =~= here);
    assert(first_of(top, tree) is None) by {
        reveal_with_fuel(first_of, 3);
        assert(top.first() == root);
    }
    if first_of(children, tree) is Some {
        lemma_ends_somewhere(children, tree);
        let at = choose|at: Seq<char>| #[trigger] ends_at(children, tree, at);
        lemma_children(tree, root, at);
        assert(is_child(tree, root, at));
    }
    lemma_children(tree, root, child);
    lemma_children(tree, child, grandchild);
    lemma_folders_are_ordered(root, tree(root));
    lemma_ends_below(children, tree, child, grandchild);
    let (p, at) = choose|p: Seq<char>, at: Seq<char>| #[trigger]
        ends_below(children, tree, p, at) && text::text_le(p, child) && (p == child
            ==> text::text_le(at, grandchild));
    lemma_children(tree, root, p);
    lemma_children(tree, p, at);
    assert(is_cover_of(tree, at));
    assert(is_child(tree, p, at));
}

/// Where a thumbnail of a folder lies, seen from the folder searched.
pub proof fn law_thumbnails_lie_in_thumbs(rel: Seq<char>, thumb: Seq<char>)
    ensures
        rel.len() == 0 ==> thumb_path(rel, thumb) == "thumbs/"@ + thumb,
        rel.len() > 0 ==> thumb_path(rel, thumb) == rel + "/thumbs/"@ + thumb,
{
    reveal_strlit("/");
    reveal_strlit("thumbs/");
    reveal_strlit("/thumbs/");
    assert(thumb_path(rel, thumb) =~= if rel.len() == 0 {
        "thumbs/"@ + thumb
    } else {
        rel + "/thumbs/"@ + thumb
    });
}

/// The thumbnail of a cover lies beside its image: in `thumbs` of the same folder,
/// under the name of the thumbnail of the image.
pub proof fn law_a_cover_lies_beside_its_image(dir: Seq<char>, name: Seq<char>)
    requires
        !name.contains('/'),
    ensures
        is_stored_form(name) ==> cover_thumb(Seq::empty(), name) == Some(
            "thumbs/"@ + util::thumb_name_of(name),
        ),
        is_stored_form(dir + "/"@ + name) ==> cover_thumb(Seq::empty(), dir + "/"@ + name) == Some(
            dir + "/thumbs/"@ + util::thumb_name_of(name),
        ),
{
    reveal_strlit("/");
    text::lemma_split_plain(name, '/');
    if is_stored_form(name) {
        lemma_full_cover(name);
    }
    let image = dir + "/"@ + name;
    if is_stored_form(image) {
        lemma_full_cover(image);
        assert(image =~= dir.push('/') + name);
        text::lemma_split_append(dir, name, '/');
        text::lemma_split_pieces(dir, '/');
        text::lemma_join_split(dir, '/');
        let all = path::segments(dir) + seq![name];
        assert(all.drop_last() =~= path::segments(dir));
        assert(all.last() == name);
    }
}

} // verus!
