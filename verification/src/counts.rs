//! Per-folder photo and album counts, and their cache.
//!
//! A folder listing shows, for every subfolder, the number of photos in its
//! whole subtree and the number of albums directly inside it. One walk of a
//! subtree yields the counts of every folder in it ([`CountWalk`]), and the
//! results are kept until the file system changes ([`CountCache`]).

use crate::cache;
use crate::cache::{CacheState, Lookup};
use crate::entry;
use crate::entry::DirEntry;
use crate::entry::EntryKind;
use crate::entry::LinkTarget;
use crate::text;
use crate::util;
use vstd::hash_map::StringHashMap;
use vstd::prelude::*;

verus! {

/// Upper bound on cached folders. On overflow the cache is dropped wholesale
/// rather than growing without limit, and a walk of more folders than that is
/// not cached.
pub const MAX_ENTRIES: usize = 16384;

/// A `(photos in the subtree, albums directly inside)` pair.
pub type Counts = (usize, usize);

/// A folder that a walk has read: where it is, which visited folder it was found
/// in, and how many photos and albums it holds itself.
pub struct VisitedFolder {
    pub path: String,
    pub parent: usize,
    pub photos: usize,
    pub albums: usize,
}

/// The content of a [`VisitedFolder`].
pub struct Folder {
    pub path: Seq<char>,
    pub parent: int,
    pub photos: nat,
    pub albums: nat,
}

impl View for VisitedFolder {
    type V = Folder;

    open spec fn view(&self) -> Folder {
        Folder {
            path: self.path@,
            parent: self.parent as int,
            photos: self.photos as nat,
            albums: self.albums as nat,
        }
    }
}

/// A folder still to be read, and the index of the visited folder it was found
/// in.
pub struct PendingFolder {
    pub path: String,
    pub parent: usize,
}

/// A walk of a subtree, one folder at a time.
///
/// The walk says which folder to read next ([`CountWalk::next`]) and takes what
/// was found there ([`CountWalk::feed`]). When nothing is left to read,
/// [`CountWalk::finish`] totals the counts.
pub struct CountWalk {
    pending: Vec<PendingFolder>,
    visited: Vec<VisitedFolder>,
    seen: usize,
}

/// The number of entries of a listing that count as photos.
pub open spec fn direct_photos(entries: Seq<DirEntry>) -> nat {
    entries.filter(|e: DirEntry| entry::is_counted_media(e@)).len()
}

/// The entries of a listing that are subfolders, in order.
pub open spec fn subfolders(entries: Seq<DirEntry>) -> Seq<DirEntry> {
    entries.filter(|e: DirEntry| entry::is_subfolder(e@))
}

/// Folders to visit, one for each of `found`, all found in the folder `path`
/// visited as number `index`.
pub open spec fn to_visit(path: Seq<char>, index: int, found: Seq<DirEntry>) -> Seq<(
    Seq<char>,
    int,
)> {
    found.map_values(|e: DirEntry| (entry::child_path(path, e.name@), index))
}

/// The entries of a directory, none when it could not be read.
pub open spec fn listed(listing: Option<Vec<DirEntry>>) -> Seq<DirEntry> {
    match listing {
        Some(entries) => entries@,
        None => Seq::<DirEntry>::empty(),
    }
}

/// Whether folder `j` is folder `i` or was found somewhere beneath it.
pub open spec fn descends(folders: Seq<Folder>, j: int, i: int) -> bool
    decreases j,
{
    j == i || (0 < j && 0 <= folders[j].parent < j && descends(folders, folders[j].parent, i))
}

/// The photos of the folders below number `k` that descend from folder `i`.
pub open spec fn photos_below(folders: Seq<Folder>, i: int, k: int) -> nat
    decreases k,
{
    if k <= 0 {
        0
    } else {
        photos_below(folders, i, k - 1) + if descends(folders, k - 1, i) {
            folders[k - 1].photos
        } else {
            0
        }
    }
}

/// The photos in folder `i` and in every folder beneath it.
pub open spec fn subtree_photos(folders: Seq<Folder>, i: int) -> nat {
    photos_below(folders, i, folders.len() as int)
}

/// The photos of the first `k` folders.
pub open spec fn all_photos(folders: Seq<Folder>, k: int) -> nat
    decreases k,
{
    if k <= 0 {
        0
    } else {
        all_photos(folders, k - 1) + folders[k - 1].photos
    }
}

/// Every folder but the first was found in an earlier one.
pub open spec fn is_tree(folders: Seq<Folder>) -> bool {
    forall|j: int| 0 < j < folders.len() ==> 0 <= (#[trigger] folders[j]).parent < j
}

/// How many of the first `k` folders were found directly in folder `i`.
pub open spec fn kids(folders: Seq<Folder>, i: int, k: int) -> nat
    decreases k,
{
    if k <= 1 {
        0
    } else {
        kids(folders, i, k - 1) + if folders[k - 1].parent == i {
            1nat
        } else {
            0
        }
    }
}

/// How many of the folders still to be read were found directly in folder `i`.
pub open spec fn waiting(to_read: Seq<(Seq<char>, int)>, i: int) -> nat
    decreases to_read.len(),
{
    if to_read.len() == 0 {
        0
    } else {
        waiting(to_read.drop_last(), i) + if to_read.last().1 == i {
            1nat
        } else {
            0
        }
    }
}

/// The counts a finished walk gives folder `i`.
pub open spec fn totals_of(folders: Seq<Folder>, i: int) -> (nat, nat) {
    (subtree_photos(folders, i), folders[i].albums)
}

impl CountWalk {
    /// The folders read so far, in the order they were read.
    pub closed spec fn folders(&self) -> Seq<Folder> {
        self.visited@.map_values(|v: VisitedFolder| v@)
    }

    /// The folders still to be read; the last one is next.
    pub closed spec fn to_read(&self) -> Seq<(Seq<char>, int)> {
        self.pending@.map_values(|p: PendingFolder| (p.path@, p.parent as int))
    }

    /// The visited folders form a tree, and every pending folder was found in a
    /// visited one (the very first in none).
    pub closed spec fn wf(&self) -> bool {
        &&& is_tree(self.folders())
        &&& self.seen == all_photos(self.folders(), self.folders().len() as int)
        &&& self.visited@.len() == 0 ==> forall|i: int|
            0 <= i < self.pending@.len() ==> (#[trigger] self.pending@[i]).parent == 0
        &&& self.visited@.len() > 0 ==> forall|i: int|
            0 <= i < self.pending@.len() ==> (#[trigger] self.pending@[i]).parent
                < self.visited@.len()
        &&& self.visited@.len() == 0 ==> self.pending@.len() == 1
        &&& forall|i: int|
            0 <= i < self.folders().len() ==> (#[trigger] self.folders()[i]).albums == kids(
                self.folders(),
                i,
                self.folders().len() as int,
            ) + waiting(self.to_read(), i)
    }

    /// A walk of the subtree of `folder`.
    pub fn start(folder: &str) -> (r: Self)
        ensures
            r.wf(),
            r.folders() == Seq::<Folder>::empty(),
            r.to_read() == seq![(folder@, 0int)],
    {
        let mut pending: Vec<PendingFolder> = Vec::new();
        pending.push(PendingFolder { path: folder.to_owned(), parent: 0 });
        let r = CountWalk { pending, visited: Vec::new(), seen: 0 };
        proof {
            assert(r.folders() =~= Seq::<Folder>::empty());
            assert(r.to_read() =~= seq![(folder@, 0int)]);
        }
        r
    }

    /// The folder to read next, or nothing when the walk is complete.
    pub fn next(&self) -> (r: Option<String>)
        ensures
            r is Some == (self.to_read().len() > 0),
            r is Some ==> r->0@ == self.to_read().last().0,
    {
        let n = self.pending.len();
        if n == 0 {
            None
        } else {
            Some(self.pending[n - 1].path.clone())
        }
    }

    /// How many photos the walk has counted so far.
    pub fn photos_seen(&self) -> (r: usize)
        requires
            self.wf(),
        ensures
            r == all_photos(self.folders(), self.folders().len() as int),
    {
        self.seen
    }

    /// Takes the listing of the folder [`CountWalk::next`] named; a folder that
    /// could not be read counts as empty.
    pub fn feed(&mut self, listing: Option<Vec<DirEntry>>)
        requires
            old(self).wf(),
            old(self).to_read().len() > 0,
            all_photos(old(self).folders(), old(self).folders().len() as int) + listed(
                listing,
            ).len() <= usize::MAX,
        ensures
            final(self).wf(),
            final(self).folders() == old(self).folders().push(
                Folder {
                    path: old(self).to_read().last().0,
                    parent: old(self).to_read().last().1,
                    photos: direct_photos(listed(listing)),
                    albums: subfolders(listed(listing)).len(),
                },
            ),
            final(self).to_read() == old(self).to_read().drop_last() + to_visit(
                old(self).to_read().last().0,
                old(self).folders().len() as int,
                subfolders(listed(listing)),
            ),
    {
        let entries = match listing {
            Some(entries) => entries,
            None => Vec::new(),
        };
        let ghost es = entries@;
        let ghost counted = |e: DirEntry| entry::is_counted_media(e@);
        let ghost inside = |e: DirEntry| entry::is_subfolder(e@);
        let ghost before = *self;
        let index = self.visited.len();
        let current = match self.pending.pop() {
            Some(current) => current,
            None => PendingFolder { path: String::new(), parent: 0 },
        };
        let ghost path = current.path@;
        proof {
            assert(es =~= listed(listing));
            assert(before.to_read().last() == (path, current.parent as int));
            assert(self.to_read() =~= before.to_read().drop_last());
        }
        let ghost rest = self.to_read();
        let mut photos: usize = 0;
        let mut albums: usize = 0;
        let mut i: usize = 0;
        proof {
            reveal(Seq::filter);
            assert(es.take(0).filter(counted) =~= Seq::<DirEntry>::empty());
            assert(es.take(0).filter(inside) =~= Seq::<DirEntry>::empty());
            assert(to_visit(path, index as int, es.take(0).filter(inside)) =~= Seq::<
                (Seq<char>, int),
            >::empty());
        }
        while i < entries.len()
            invariant
                i <= entries@.len(),
                es == entries@,
                path == current.path@,
                counted == (|e: DirEntry| entry::is_counted_media(e@)),
                inside == (|e: DirEntry| entry::is_subfolder(e@)),
                photos == es.take(i as int).filter(counted).len(),
                albums == es.take(i as int).filter(inside).len(),
                photos <= i,
                albums <= i,
                self.visited@ == before.visited@,
                self.seen == before.seen,
                index == before.visited@.len(),
                self.to_read() =~= rest + to_visit(
                    path,
                    index as int,
                    es.take(i as int).filter(inside),
                ),
                forall|j: int|
                    rest.len() <= j < self.pending@.len() ==> (#[trigger] self.pending@[j]).parent
                        == index,
                forall|j: int|
                    0 <= j < rest.len() ==> #[trigger] self.pending@[j] == before.pending@[j],
                rest.len() == before.pending@.len() - 1,
                self.pending@.len() >= rest.len(),
            decreases entries.len() - i,
        {
            let e = &entries[i];
            let ghost was = *self;
            proof {
                reveal(Seq::filter);
                assert(es.take(i + 1).drop_last() =~= es.take(i as int));
                assert(es.take(i + 1).last() == *e);
            }
            if entry::is_searchable_dir(e) {
                albums = albums + 1;
                let sub = entry::child_of(&current.path, &e.name);
                self.pending.push(PendingFolder { path: sub, parent: index });
                proof {
                    let found = es.take(i as int).filter(inside);
                    assert(es.take(i + 1).filter(inside) =~= found.push(*e));
                    assert(to_visit(path, index as int, found.push(*e)) =~= to_visit(
                        path,
                        index as int,
                        found,
                    ).push((entry::child_path(path, e.name@), index as int)));
                    assert(self.to_read() =~= was.to_read().push((sub@, index as int)));
                }
            } else if entry::counted_media(e) {
                photos = photos + 1;
            }
            proof {
                assert(!(entry::is_subfolder(e@) && entry::is_counted_media(e@)));
            }
            i = i + 1;
        }
        proof {
            assert(es.take(i as int) =~= es);
        }
        let ghost old_folders = self.folders();
        proof {
            assert(old_folders =~= before.folders());
        }
        self.seen = self.seen + photos;
        let ghost parent = current.parent;
        self.visited.push(VisitedFolder { path: current.path, parent: current.parent, photos, albums });
        proof {
            let new = self.folders();
            assert(new =~= old_folders.push(
                Folder { path, parent: parent as int, photos: photos as nat, albums: albums as nat },
            ));
            lemma_all_photos_of_prefix(old_folders, new, old_folders.len() as int);
            assert(is_tree(new)) by {
                assert forall|j: int| 0 < j < new.len() implies 0 <= (#[trigger] new[j]).parent
                    < j by {
                    if j < old_folders.len() {
                        assert(new[j] == old_folders[j]);
                    } else {
                        assert(before.pending@[before.pending@.len() - 1].parent == parent);
                    }
                }
            }
            let found = to_visit(path, index as int, es.filter(inside));
            assert(self.to_read() =~= rest + found);
            assert forall|m: int| 0 <= m < new.len() implies (#[trigger] new[m]).albums == kids(
                new,
                m,
                new.len() as int,
            ) + waiting(self.to_read(), m) by {
                let n = old_folders.len() as int;
                lemma_kids_of_prefix(old_folders, new, m, n);
                lemma_waiting_append(rest, found, m);
                lemma_waiting_found(path, index as int, es.filter(inside), m);
                if m < n {
                    assert(new[m] == old_folders[m]);
                    assert(before.to_read() =~= rest.push(before.to_read().last()));
                    assert(before.to_read().drop_last() =~= rest);
                } else {
                    assert forall|j: int| 0 <= j < rest.len() implies (#[trigger] rest[j]).1 < n by {
                        assert(before.pending@[j].parent < before.visited@.len());
                    }
                    lemma_no_kids(old_folders, rest, n, n);
                }
            }
        }
    }

    /// The counts of every folder that was read: for each, the photos in its
    /// whole subtree and the albums directly inside it, all of which were read
    /// too.
    pub fn finish(self) -> (r: Vec<(String, Counts)>)
        requires
            self.wf(),
            self.to_read().len() == 0,
        ensures
            r@.len() == self.folders().len(),
            forall|i: int|
                0 <= i < r@.len() ==> {
                    &&& (#[trigger] r@[i]).0@ == self.folders()[i].path
                    &&& (r@[i].1.0 as nat, r@[i].1.1 as nat) == totals_of(self.folders(), i)
                    &&& r@[i].1.1 as nat == kids(
                        self.folders(),
                        i,
                        self.folders().len() as int,
                    )
                },
    {
        let ghost fs = self.folders();
        let visited = self.visited;
        let n = visited.len();
        let mut totals: Vec<usize> = Vec::new();
        let mut i: usize = 0;
        while i < n
            invariant
                i <= n == visited@.len() == fs.len(),
                fs == visited@.map_values(|v: VisitedFolder| v@),
                totals@.len() == i,
                forall|j: int| 0 <= j < i ==> #[trigger] totals@[j] == fs[j].photos,
            decreases n - i,
        {
            totals.push(visited[i].photos);
            i = i + 1;
        }
        let mut k: usize = n;
        proof {
            assert forall|j: int| 0 <= j < n implies #[trigger] totals@[j] == fs[j].photos
                + child_photos(fs, j, n as int) by {}
        }
        while k > 1
            invariant
                k <= n == visited@.len() == fs.len(),
                fs == visited@.map_values(|v: VisitedFolder| v@),
                is_tree(fs),
                all_photos(fs, n as int) <= usize::MAX,
                totals@.len() == n,
                forall|j: int|
                    0 <= j < n ==> #[trigger] totals@[j] == fs[j].photos + child_photos(
                        fs,
                        j,
                        k as int,
                    ),
            decreases k,
        {
            let j = k - 1;
            let up = visited[j].parent;
            let ghost was = totals@;
            proof {
                assert(fs[j as int].parent == up);
                law_counts_are_recursive(fs, j as int);
                lemma_later_children(fs, j as int, k as int);
                assert(totals@[j as int] == subtree_photos(fs, j as int));
                assert(totals@[up as int] + totals@[j as int] <= usize::MAX) by {
                    law_counts_are_recursive(fs, up as int);
                    lemma_child_photos_grow(fs, up as int, 0, j as int);
                    lemma_photos_below_bounded(fs, up as int, n as int);
                }
            }
            let sum: usize = totals[up] + totals[j];
            totals.set(up, sum);
            proof {
                assert forall|m: int| 0 <= m < n implies #[trigger] totals@[m] == fs[m].photos
                    + child_photos(fs, m, j as int) by {}
            }
            k = j;
        }
        let mut out: Vec<(String, Counts)> = Vec::new();
        let mut i: usize = 0;
        while i < n
            invariant
                i <= n == visited@.len() == fs.len(),
                k <= 1,
                k <= n,
                fs == visited@.map_values(|v: VisitedFolder| v@),
                is_tree(fs),
                totals@.len() == n,
                forall|j: int|
                    0 <= j < n ==> #[trigger] totals@[j] == fs[j].photos + child_photos(
                        fs,
                        j,
                        k as int,
                    ),
                out@.len() == i,
                forall|j: int|
                    0 <= j < i ==> {
                        &&& (#[trigger] out@[j]).0@ == fs[j].path
                        &&& (out@[j].1.0 as nat, out@[j].1.1 as nat) == totals_of(fs, j)
                    },
            decreases n - i,
        {
            proof {
                law_counts_are_recursive(fs, i as int);
                assert(totals@[i as int] == subtree_photos(fs, i as int));
            }
            out.push((visited[i].path.clone(), (totals[i], visited[i].albums)));
            i = i + 1;
        }
        out
    }
}

/// The subtree photos of the folders found directly in folder `i` and numbered
/// `lo` or later.
pub open spec fn child_photos(folders: Seq<Folder>, i: int, lo: int) -> nat
    decreases folders.len() - lo,
{
    if lo < 0 || lo >= folders.len() {
        0
    } else {
        child_photos(folders, i, lo + 1) + if lo > 0 && folders[lo].parent == i {
            subtree_photos(folders, lo)
        } else {
            0
        }
    }
}

/// [`child_photos`] over the folders below number `k` only.
spec fn child_photos_below(folders: Seq<Folder>, i: int, lo: int, k: int) -> nat
    decreases folders.len() - lo,
{
    if lo < 0 || lo >= folders.len() {
        0
    } else {
        child_photos_below(folders, i, lo + 1, k) + if lo > 0 && folders[lo].parent == i {
            photos_below(folders, lo, k)
        } else {
            0
        }
    }
}

/// Folder `c` was found directly in folder `i` and holds folder `x`.
spec fn holds_for(folders: Seq<Folder>, i: int, x: int, c: int) -> bool {
    0 < c < folders.len() && folders[c].parent == i && descends(folders, x, c)
}

proof fn lemma_all_photos_of_prefix(short: Seq<Folder>, long: Seq<Folder>, k: int)
    requires
        k <= short.len() <= long.len(),
        forall|j: int| 0 <= j < short.len() ==> #[trigger] long[j] == short[j],
    ensures
        all_photos(short, k) == all_photos(long, k),
    decreases k,
{
    if k > 0 {
        lemma_all_photos_of_prefix(short, long, k - 1);
        assert(long[k - 1] == short[k - 1]);
    }
}

proof fn lemma_kids_of_prefix(short: Seq<Folder>, long: Seq<Folder>, i: int, k: int)
    requires
        k <= short.len() <= long.len(),
        forall|j: int| 0 <= j < short.len() ==> #[trigger] long[j] == short[j],
    ensures
        kids(short, i, k) == kids(long, i, k),
    decreases k,
{
    if k > 1 {
        lemma_kids_of_prefix(short, long, i, k - 1);
        assert(long[k - 1] == short[k - 1]);
    }
}

proof fn lemma_waiting_append(a: Seq<(Seq<char>, int)>, b: Seq<(Seq<char>, int)>, i: int)
    ensures
        waiting(a + b, i) == waiting(a, i) + waiting(b, i),
    decreases b.len(),
{
    if b.len() == 0 {
        assert(a + b =~= a);
    } else {
        lemma_waiting_append(a, b.drop_last(), i);
        assert((a + b).drop_last() =~= a + b.drop_last());
    }
}

proof fn lemma_waiting_found(path: Seq<char>, index: int, found: Seq<DirEntry>, i: int)
    ensures
        waiting(to_visit(path, index, found), i) == if i == index {
            found.len()
        } else {
            0
        },
    decreases found.len(),
{
    let all = to_visit(path, index, found);
    if found.len() > 0 {
        lemma_waiting_found(path, index, found.drop_last(), i);
        assert(all.drop_last() =~= to_visit(path, index, found.drop_last()));
    }
}

/// No folder was found in one that has not been read.
proof fn lemma_no_kids(folders: Seq<Folder>, to_read: Seq<(Seq<char>, int)>, i: int, k: int)
    requires
        is_tree(folders),
        k <= folders.len() <= i,
        forall|j: int| 0 <= j < to_read.len() ==> (#[trigger] to_read[j]).1 < i,
    ensures
        kids(folders, i, k) == 0,
        waiting(to_read, i) == 0,
    decreases k, to_read.len(),
{
    if k > 1 {
        lemma_no_kids(folders, to_read, i, k - 1);
    } else if to_read.len() > 0 {
        let front = to_read.drop_last();
        assert forall|j: int| 0 <= j < front.len() implies (#[trigger] front[j]).1 < i by {
            assert(front[j] == to_read[j]);
        }
        lemma_no_kids(folders, front, i, k);
        assert(to_read[to_read.len() - 1].1 < i);
    }
}

proof fn lemma_descends_later(folders: Seq<Folder>, j: int, i: int)
    requires
        descends(folders, j, i),
    ensures
        j >= i,
    decreases j,
{
    if j != i {
        lemma_descends_later(folders, folders[j].parent, i);
    }
}

proof fn lemma_descends_through(folders: Seq<Folder>, x: int, c: int)
    requires
        is_tree(folders),
        0 < c < folders.len(),
        descends(folders, x, c),
    ensures
        descends(folders, x, folders[c].parent),
        x != folders[c].parent,
    decreases x,
{
    lemma_descends_later(folders, x, c);
    if x == c {
        assert(descends(folders, folders[c].parent, folders[c].parent));
    } else {
        lemma_descends_through(folders, folders[x].parent, c);
    }
}

proof fn lemma_holder_is_unique(folders: Seq<Folder>, i: int, x: int, a: int, b: int)
    requires
        is_tree(folders),
        holds_for(folders, i, x, a),
        holds_for(folders, i, x, b),
    ensures
        a == b,
    decreases x,
{
    if a != b {
        if x == a {
            lemma_descends_later(folders, folders[a].parent, b);
        } else if x == b {
            lemma_descends_later(folders, folders[b].parent, a);
        } else {
            lemma_holder_is_unique(folders, i, folders[x].parent, a, b);
        }
    }
}

proof fn lemma_holder_exists(folders: Seq<Folder>, i: int, x: int) -> (c: int)
    requires
        is_tree(folders),
        0 <= x < folders.len(),
        descends(folders, x, i),
        x != i,
    ensures
        holds_for(folders, i, x, c),
    decreases x,
{
    let p = folders[x].parent;
    if p == i {
        x
    } else {
        let c = lemma_holder_exists(folders, i, p);
        c
    }
}

proof fn lemma_child_photos_below_step(folders: Seq<Folder>, i: int, lo: int, k: int, c: int)
    requires
        is_tree(folders),
        0 <= lo,
        0 < k <= folders.len(),
        forall|d: int| #[trigger] holds_for(folders, i, k - 1, d) <==> d == c && c >= 0,
    ensures
        child_photos_below(folders, i, lo, k) == child_photos_below(folders, i, lo, k - 1) + if lo
            <= c {
            folders[k - 1].photos
        } else {
            0
        },
    decreases folders.len() - lo,
{
    assert(c >= 0 ==> holds_for(folders, i, k - 1, c));
    if lo < folders.len() {
        lemma_child_photos_below_step(folders, i, lo + 1, k, c);
        assert(holds_for(folders, i, k - 1, lo) <==> lo == c);
    }
}

proof fn lemma_photos_below_is_sum(folders: Seq<Folder>, i: int, k: int)
    requires
        is_tree(folders),
        0 <= i < folders.len(),
        0 <= k <= folders.len(),
    ensures
        photos_below(folders, i, k) == child_photos_below(folders, i, 0, k) + if i < k {
            folders[i].photos
        } else {
            0
        },
    decreases k,
{
    if k == 0 {
        lemma_no_child_photos_below(folders, i, 0);
    } else {
        let x = k - 1;
        lemma_photos_below_is_sum(folders, i, x);
        if descends(folders, x, i) && x != i {
            lemma_descends_later(folders, x, i);
            let c = lemma_holder_exists(folders, i, x);
            assert forall|d: int| #[trigger] holds_for(folders, i, x, d) <==> d == c && c >= 0 by {
                if holds_for(folders, i, x, d) {
                    lemma_holder_is_unique(folders, i, x, c, d);
                }
            }
            lemma_child_photos_below_step(folders, i, 0, k, c);
        } else {
            assert forall|d: int| !#[trigger] holds_for(folders, i, x, d) by {
                if holds_for(folders, i, x, d) {
                    lemma_descends_through(folders, x, d);
                }
            }
            lemma_child_photos_below_step(folders, i, 0, k, -1);
        }
    }
}

proof fn lemma_no_child_photos_below(folders: Seq<Folder>, i: int, lo: int)
    requires
        0 <= lo,
    ensures
        child_photos_below(folders, i, lo, 0) == 0,
    decreases folders.len() - lo,
{
    if lo < folders.len() {
        lemma_no_child_photos_below(folders, i, lo + 1);
    }
}

proof fn lemma_child_photos_below_all(folders: Seq<Folder>, i: int, lo: int)
    requires
        0 <= lo,
    ensures
        child_photos_below(folders, i, lo, folders.len() as int) == child_photos(folders, i, lo),
    decreases folders.len() - lo,
{
    if lo < folders.len() {
        lemma_child_photos_below_all(folders, i, lo + 1);
    }
}

proof fn lemma_later_children(folders: Seq<Folder>, i: int, lo: int)
    requires
        is_tree(folders),
        0 <= lo <= i + 1,
        i < folders.len(),
    ensures
        child_photos(folders, i, lo) == child_photos(folders, i, 0),
    decreases lo,
{
    if lo > 0 {
        lemma_later_children(folders, i, lo - 1);
    }
}

proof fn lemma_child_photos_grow(folders: Seq<Folder>, i: int, lo: int, hi: int)
    requires
        0 <= lo <= hi,
    ensures
        child_photos(folders, i, hi) <= child_photos(folders, i, lo),
    decreases hi - lo,
{
    if lo < hi {
        lemma_child_photos_grow(folders, i, lo + 1, hi);
    }
}

proof fn lemma_photos_below_bounded(folders: Seq<Folder>, i: int, k: int)
    ensures
        photos_below(folders, i, k) <= all_photos(folders, k),
    decreases k,
{
    if k > 0 {
        lemma_photos_below_bounded(folders, i, k - 1);
    }
}

/// The walk results as the cache stores them, in order: a later count of the same
/// folder replaces an earlier one.
pub open spec fn published(
    s: CacheState<Counts>,
    generation: u64,
    counts: Seq<(String, Counts)>,
) -> CacheState<Counts>
    decreases counts.len(),
{
    if counts.len() == 0 {
        s
    } else {
        cache::stored(
            published(s, generation, counts.drop_last()),
            generation,
            counts.last().0@,
            counts.last().1,
        )
    }
}

/// The cache emptied, where `n` more entries would exceed the bound.
pub open spec fn with_room(s: CacheState<Counts>, n: nat) -> CacheState<Counts> {
    if s.entries.len() + n > MAX_ENTRIES {
        CacheState { generation: s.generation, entries: Map::empty() }
    } else {
        s
    }
}

/// What of the results of a walk is cached: all of it, or nothing where it alone
/// would exceed the bound.
pub open spec fn cacheable(counts: Seq<(String, Counts)>) -> Seq<(String, Counts)> {
    if counts.len() > MAX_ENTRIES {
        Seq::empty()
    } else {
        counts
    }
}

/// The cache after a walk that began under generation `ticket` was published. A
/// ticket the cache has not given out in this round of its generations is void.
pub open spec fn arrived(
    s: CacheState<Counts>,
    ticket: u64,
    counts: Seq<(String, Counts)>,
) -> CacheState<Counts> {
    if ticket <= s.generation {
        published(with_room(s, counts.len()), ticket, cacheable(counts))
    } else {
        s
    }
}

/// What a walk found for `folder`, nothing where it did not reach it.
pub open spec fn found(counts: Seq<(String, Counts)>, folder: Seq<char>) -> Option<Counts>
    decreases counts.len(),
{
    if counts.len() == 0 {
        None
    } else if counts.last().0@ == folder {
        Some(counts.last().1)
    } else {
        found(counts.drop_last(), folder)
    }
}

/// The counts a walk found for `folder`, zero where it did not reach it.
pub open spec fn counts_found(counts: Seq<(String, Counts)>, folder: Seq<char>) -> Counts {
    match found(counts, folder) {
        Some(c) => c,
        None => (0, 0),
    }
}

/// Photo and album counts for every folder walked, invalidated as a whole.
pub struct CountCache {
    generation: u64,
    entries: StringHashMap<(u64, Counts)>,
}

impl View for CountCache {
    type V = CacheState<Counts>;

    closed spec fn view(&self) -> CacheState<Counts> {
        CacheState { generation: self.generation, entries: self.entries@ }
    }
}

impl CountCache {
    /// The cache holds no more than [`MAX_ENTRIES`] entries, and none of a
    /// generation that has not begun.
    pub open spec fn wf(&self) -> bool {
        cache::is_sound(self@, MAX_ENTRIES as nat)
    }

    /// An empty cache.
    pub fn new() -> (r: Self)
        ensures
            r.wf(),
            r@ == (CacheState { generation: 0u64, entries: Map::<Seq<char>, (u64, Counts)>::empty() }),
    {
        CountCache { generation: 0, entries: StringHashMap::new() }
    }

    /// The current generation: what a walk that starts now publishes under.
    pub fn generation(&self) -> (r: u64)
        ensures
            r == self@.generation,
    {
        self.generation
    }

    /// Drops every cached count.
    pub fn invalidate(&mut self)
        requires
            old(self).wf(),
        ensures
            final(self).wf(),
            final(self)@ == cache::invalidated(old(self)@),
    {
        if self.generation == u64::MAX {
            self.generation = 0;
            self.entries.clear();
        } else {
            self.generation = self.generation + 1;
        }
    }

    /// The live counts of `folder`.
    pub fn get(&self, folder: &str) -> (r: Option<Counts>)
        ensures
            r == cache::live(self@, folder@),
    {
        match self.entries.get(folder) {
            Some(entry) => {
                if entry.0 == self.generation {
                    Some(entry.1)
                } else {
                    None
                }
            },
            None => None,
        }
    }

    /// Caches the results of a walk that began under `generation`.
    pub fn extend(&mut self, generation: u64, counts: &Vec<(String, Counts)>)
        requires
            old(self).wf(),
            generation <= old(self)@.generation,
        ensures
            final(self).wf(),
            final(self)@ == published(
                with_room(old(self)@, counts@.len()),
                generation,
                cacheable(counts@),
            ),
    {
        let ghost before = self@;
        let n = counts.len();
        if n > MAX_ENTRIES {
            self.entries.clear();
            return;
        }
        if self.entries.len() > MAX_ENTRIES - n {
            self.entries.clear();
        }
        let ghost start = self@;
        let mut i: usize = 0;
        proof {
            assert(counts@.take(0) =~= Seq::<(String, Counts)>::empty());
        }
        while i < n
            invariant
                i <= n == counts@.len(),
                self@ == published(start, generation, counts@.take(i as int)),
            decreases n - i,
        {
            self.entries.insert(counts[i].0.clone(), (generation, counts[i].1));
            i = i + 1;
            proof {
                assert(counts@.take(i as int).drop_last() =~= counts@.take(i - 1));
            }
        }
        proof {
            assert(counts@.take(n as int) =~= counts@);
            law_the_cache_is_bounded(before, generation, counts@);
        }
    }

    /// The live counts of `folder`, or the ticket for a walk that counts them. The
    /// ticket is taken before the walk starts, so that a change during the walk
    /// makes its results stale.
    pub fn begin(&self, folder: &str) -> (r: Lookup<Counts>)
        ensures
            r == match cache::live(self@, folder@) {
                Some(c) => Lookup::Hit(c),
                None => Lookup::Miss(self@.generation),
            },
            r == cache::looked_up(self@, folder@),
    {
        match self.get(folder) {
            Some(counts) => Lookup::Hit(counts),
            None => Lookup::Miss(self.generation),
        }
    }

    /// Caches the results of the walk for which `ticket` was given out, and gives
    /// the counts of `folder` among them, zero where the walk did not reach it.
    pub fn publish(&mut self, ticket: u64, folder: &str, counts: &Vec<(String, Counts)>) -> (r:
        Counts)
        requires
            old(self).wf(),
        ensures
            final(self).wf(),
            final(self)@ == arrived(old(self)@, ticket, counts@),
            r == counts_found(counts@, folder@),
    {
        if ticket <= self.generation {
            self.extend(ticket, counts);
        }
        match counts_for(counts, folder) {
            Some(value) => value,
            None => (0, 0),
        }
    }

    /// The counts of `folder`, from the cache or else from `walk`, which counts
    /// its subtree. A folder with live counts is not walked. Every folder that a
    /// walk reached is cached, within the bound.
    pub fn count<F: FnOnce() -> Vec<(String, Counts)>>(&mut self, folder: &str, walk: F) -> (r:
        Counts)
        requires
            old(self).wf(),
            cache::live(old(self)@, folder@) is None ==> call_requires(walk, ()),
        ensures
            final(self).wf(),
            cache::live(old(self)@, folder@) matches Some(c) ==> r == c && final(self)@ == old(
                self,
            )@,
            cache::live(old(self)@, folder@) is None ==> exists|counts: Vec<(String, Counts)>|
                {
                    &&& #[trigger] call_ensures(walk, (), counts)
                    &&& r == counts_found(counts@, folder@)
                    &&& final(self)@ == published(
                        with_room(old(self)@, counts@.len()),
                        old(self)@.generation,
                        cacheable(counts@),
                    )
                },
    {
        match self.begin(folder) {
            Lookup::Hit(counts) => counts,
            Lookup::Miss(ticket) => {
                let counts = walk();
                self.publish(ticket, folder, &counts)
            },
        }
    }
}

/// What a walk found for `folder`.
pub fn counts_for(counts: &Vec<(String, Counts)>, folder: &str) -> (r: Option<Counts>)
    ensures
        r == found(counts@, folder@),
{
    let mut k: usize = counts.len();
    proof {
        assert(counts@.take(k as int) =~= counts@);
    }
    while k > 0
        invariant
            k <= counts@.len(),
            found(counts@, folder@) == found(counts@.take(k as int), folder@),
        decreases k,
    {
        k = k - 1;
        proof {
            assert(counts@.take(k + 1).drop_last() =~= counts@.take(k as int));
        }
        if text::same_text(&counts[k].0, folder) {
            return Some(counts[k].1);
        }
    }
    None
}

/// The cache stays within its bound, however many folders a walk reached, and
/// stays sound.
pub proof fn law_the_cache_is_bounded(
    s: CacheState<Counts>,
    generation: u64,
    counts: Seq<(String, Counts)>,
)
    requires
        s.entries.dom().finite(),
    ensures
        ({
            let after = published(with_room(s, counts.len()), generation, cacheable(counts));
            &&& after.entries.dom().finite()
            &&& after.entries.len() <= MAX_ENTRIES
            &&& cache::live_folders(after).len() <= MAX_ENTRIES
            &&& cache::is_past(s) && generation <= s.generation ==> cache::is_past(after)
        }),
{
    let roomy = with_room(s, counts.len());
    lemma_published_size(roomy, generation, cacheable(counts));
    cache::lemma_live_folders(published(roomy, generation, cacheable(counts)));
}

proof fn lemma_published_size(
    s: CacheState<Counts>,
    generation: u64,
    counts: Seq<(String, Counts)>,
)
    requires
        s.entries.dom().finite(),
    ensures
        ({
            let after = published(s, generation, counts);
            &&& after.generation == s.generation
            &&& after.entries.dom().finite()
            &&& after.entries.len() <= s.entries.len() + counts.len()
            &&& cache::is_past(s) && generation <= s.generation ==> cache::is_past(after)
        }),
    decreases counts.len(),
{
    if counts.len() > 0 {
        lemma_published_size(s, generation, counts.drop_last());
        let front = published(s, generation, counts.drop_last());
        let entry = (generation, counts.last().1);
        assert(front.entries.insert(counts.last().0@, entry).dom() =~= front.entries.dom().insert(
            counts.last().0@,
        ));
    }
}

/// After a walk is published, the cache answers for each folder what was cached
/// of the walk, and for every other folder what it answered before, or nothing
/// where it had to be emptied.
pub proof fn law_published_counts_are_read_back(
    s: CacheState<Counts>,
    counts: Seq<(String, Counts)>,
    folder: Seq<char>,
)
    ensures
        cache::live(
            published(with_room(s, counts.len()), s.generation, cacheable(counts)),
            folder,
        ) == (match found(cacheable(counts), folder) {
            Some(c) => Some(c),
            None => cache::live(with_room(s, counts.len()), folder),
        }),
{
    lemma_published(with_room(s, counts.len()), cacheable(counts), folder);
}

proof fn lemma_published(s: CacheState<Counts>, counts: Seq<(String, Counts)>, folder: Seq<char>)
    ensures
        published(s, s.generation, counts).generation == s.generation,
        cache::live(published(s, s.generation, counts), folder) == (match found(counts, folder) {
            Some(c) => Some(c),
            None => cache::live(s, folder),
        }),
    decreases counts.len(),
{
    if counts.len() > 0 {
        lemma_published(s, counts.drop_last(), folder);
    }
}

/// Results of a walk that was under way when the cache was invalidated are
/// ignored: nothing is live after they are stored under the generation in which
/// the walk began, or published by its ticket.
pub proof fn law_a_walk_overtaken_by_a_change_is_ignored(
    s: CacheState<Counts>,
    counts: Seq<(String, Counts)>,
    folder: Seq<char>,
)
    requires
        cache::is_past(s),
    ensures
        cache::live(
            published(
                with_room(cache::invalidated(s), counts.len()),
                s.generation,
                cacheable(counts),
            ),
            folder,
        ) is None,
        cache::live(arrived(cache::invalidated(s), s.generation, counts), folder) is None,
{
    lemma_late(
        with_room(cache::invalidated(s), counts.len()),
        s.generation,
        cacheable(counts),
    );
}

proof fn lemma_late(s: CacheState<Counts>, generation: u64, counts: Seq<(String, Counts)>)
    requires
        forall|f: Seq<char>| #[trigger] s.entries.contains_key(f) ==> s.entries[f].0 != s.generation,
        generation != s.generation,
    ensures
        published(s, generation, counts).generation == s.generation,
        forall|f: Seq<char>| #[trigger]
            published(s, generation, counts).entries.contains_key(f) ==> published(
                s,
                generation,
                counts,
            ).entries[f].0 != s.generation,
    decreases counts.len(),
{
    if counts.len() > 0 {
        lemma_late(s, generation, counts.drop_last());
    }
}

/// A tree of folders: the listing of its top folder, and the trees of the
/// subfolders in it, in the order they are listed.
pub struct FileTree {
    pub entries: Seq<DirEntry>,
    pub subs: Seq<FileTree>,
}

/// The photos in a tree.
pub open spec fn photos_in(tree: FileTree) -> nat
    decreases tree,
{
    direct_photos(tree.entries) + photos_in_all(tree.subs)
}

/// The photos in several trees.
pub open spec fn photos_in_all(trees: Seq<FileTree>) -> nat
    decreases trees,
{
    if trees.len() == 0 {
        0
    } else {
        photos_in_all(trees.drop_last()) + photos_in(trees.last())
    }
}

/// The folders in a tree.
pub open spec fn folders_in(tree: FileTree) -> nat
    decreases tree,
{
    1 + folders_in_all(tree.subs)
}

/// The folders in several trees.
pub open spec fn folders_in_all(trees: Seq<FileTree>) -> nat
    decreases trees,
{
    if trees.len() == 0 {
        0
    } else {
        folders_in_all(trees.drop_last()) + folders_in(trees.last())
    }
}

/// The folders a walk has read when it is complete. It has read `folders`, and
/// has yet to read those of `to_read`, which are the tops of `trees`. Each step
/// is one of [`CountWalk::feed`].
pub open spec fn walked(
    folders: Seq<Folder>,
    to_read: Seq<(Seq<char>, int)>,
    trees: Seq<FileTree>,
) -> Seq<Folder>
    decreases folders_in_all(trees),
{
    if trees.len() == 0 || to_read.len() != trees.len() {
        folders
    } else {
        let (path, parent) = to_read.last();
        let tree = trees.last();
        proof {
            lemma_last_tree(trees);
            lemma_folders_append(trees.drop_last(), tree.subs);
        }
        walked(
            folders.push(
                Folder {
                    path,
                    parent,
                    photos: direct_photos(tree.entries),
                    albums: subfolders(tree.entries).len(),
                },
            ),
            to_read.drop_last() + to_visit(path, folders.len() as int, subfolders(tree.entries)),
            trees.drop_last() + tree.subs,
        )
    }
}

/// Every folder of a tree has one tree for each subfolder in its listing.
pub open spec fn is_complete(tree: FileTree) -> bool
    decreases tree,
{
    &&& tree.subs.len() == subfolders(tree.entries).len()
    &&& forall|i: int| 0 <= i < tree.subs.len() ==> is_complete(#[trigger] tree.subs[i])
}

/// What the last of several trees adds.
pub proof fn lemma_last_tree(trees: Seq<FileTree>)
    requires
        trees.len() > 0,
    ensures
        folders_in_all(trees) == folders_in_all(trees.drop_last()) + 1 + folders_in_all(
            trees.last().subs,
        ),
{
    reveal_with_fuel(folders_in, 2);
    reveal_with_fuel(folders_in_all, 2);
}

/// The folders of two lists of trees.
pub proof fn lemma_folders_append(a: Seq<FileTree>, b: Seq<FileTree>)
    ensures
        folders_in_all(a + b) == folders_in_all(a) + folders_in_all(b),
    decreases b.len(),
{
    if b.len() == 0 {
        assert(a + b =~= a);
    } else {
        lemma_folders_append(a, b.drop_last());
        assert((a + b).drop_last() =~= a + b.drop_last());
    }
}

/// Whether every folder still to be read was found in one that was read.
spec fn are_found(folders: Seq<Folder>, to_read: Seq<(Seq<char>, int)>) -> bool {
    forall|i: int|
        0 <= i < to_read.len() ==> 0 <= (#[trigger] to_read[i]).1 && (to_read[i].1 < folders.len()
            || folders.len() == 0)
}

/// The paths of the folders still to be read.
spec fn paths_of(to_read: Seq<(Seq<char>, int)>) -> Seq<Seq<char>> {
    to_read.map_values(|p: (Seq<char>, int)| p.0)
}

/// The album paths of the subfolders in the listing of the folder `path`.
pub open spec fn child_paths(path: Seq<char>, entries: Seq<DirEntry>) -> Seq<Seq<char>> {
    subfolders(entries).map_values(|e: DirEntry| entry::child_path(path, e.name@))
}

/// Every folder of a tree whose top is at `path`, with its own tree: the top, then
/// what is in its subfolders, the last of them first.
pub open spec fn located(path: Seq<char>, tree: FileTree) -> Seq<(Seq<char>, FileTree)>
    decreases tree,
{
    seq![(path, tree)] + located_all(child_paths(path, tree.entries), tree.subs)
}

/// Every folder of several trees whose tops are at `paths`, the last tree first.
pub open spec fn located_all(paths: Seq<Seq<char>>, trees: Seq<FileTree>) -> Seq<
    (Seq<char>, FileTree),
>
    decreases trees,
{
    if trees.len() == 0 || paths.len() != trees.len() {
        Seq::empty()
    } else {
        located(paths.last(), trees.last()) + located_all(paths.drop_last(), trees.drop_last())
    }
}

proof fn lemma_located_append(
    a: Seq<Seq<char>>,
    b: Seq<Seq<char>>,
    s: Seq<FileTree>,
    t: Seq<FileTree>,
)
    requires
        a.len() == s.len(),
        b.len() == t.len(),
    ensures
        located_all(a + b, s + t) == located_all(b, t) + located_all(a, s),
    decreases t.len(),
{
    if t.len() == 0 {
        assert(a + b =~= a);
        assert(s + t =~= s);
        assert(located_all(b, t) + located_all(a, s) =~= located_all(a, s));
    } else {
        lemma_located_append(a, b.drop_last(), s, t.drop_last());
        assert((a + b).drop_last() =~= a + b.drop_last());
        assert((s + t).drop_last() =~= s + t.drop_last());
        let first = located(b.last(), t.last());
        assert(first + (located_all(b.drop_last(), t.drop_last()) + located_all(a, s)) =~= (first
            + located_all(b.drop_last(), t.drop_last())) + located_all(a, s));
    }
}

/// Whether each folder that was read is the top of the tree at its place.
spec fn are_at(folders: Seq<Folder>, places: Seq<(Seq<char>, FileTree)>) -> bool {
    &&& folders.len() == places.len()
    &&& forall|i: int|
        0 <= i < folders.len() ==> {
            &&& (#[trigger] folders[i]).path == places[i].0
            &&& folders[i].photos == direct_photos(places[i].1.entries)
            &&& folders[i].albums == subfolders(places[i].1.entries).len()
            &&& is_complete(places[i].1)
        }
}

/// The photos in the trees of those of the first `k` folders that were found
/// directly in folder `i`.
spec fn kid_photos(
    folders: Seq<Folder>,
    places: Seq<(Seq<char>, FileTree)>,
    i: int,
    k: int,
) -> nat
    decreases k,
{
    if k <= 1 {
        0
    } else {
        kid_photos(folders, places, i, k - 1) + if folders[k - 1].parent == i {
            photos_in(places[k - 1].1)
        } else {
            0
        }
    }
}

/// The photos in the trees still to be read that were found directly in folder
/// `i`.
spec fn waiting_photos(to_read: Seq<(Seq<char>, int)>, trees: Seq<FileTree>, i: int) -> nat
    decreases trees.len(),
{
    if trees.len() == 0 || to_read.len() != trees.len() {
        0
    } else {
        waiting_photos(to_read.drop_last(), trees.drop_last(), i) + if to_read.last().1 == i {
            photos_in(trees.last())
        } else {
            0
        }
    }
}

/// Whether what was found in each folder is either read or still to be read.
spec fn are_accounted(
    folders: Seq<Folder>,
    places: Seq<(Seq<char>, FileTree)>,
    to_read: Seq<(Seq<char>, int)>,
    trees: Seq<FileTree>,
) -> bool {
    forall|i: int|
        0 <= i < folders.len() ==> photos_in_all((#[trigger] places[i]).1.subs) == kid_photos(
            folders,
            places,
            i,
            folders.len() as int,
        ) + waiting_photos(to_read, trees, i)
}

proof fn lemma_waiting_photos_append(
    a: Seq<(Seq<char>, int)>,
    b: Seq<(Seq<char>, int)>,
    s: Seq<FileTree>,
    t: Seq<FileTree>,
    i: int,
)
    requires
        a.len() == s.len(),
        b.len() == t.len(),
    ensures
        waiting_photos(a + b, s + t, i) == waiting_photos(a, s, i) + waiting_photos(b, t, i),
    decreases t.len(),
{
    if t.len() == 0 {
        assert(a + b =~= a);
        assert(s + t =~= s);
    } else {
        lemma_waiting_photos_append(a, b.drop_last(), s, t.drop_last(), i);
        assert((a + b).drop_last() =~= a + b.drop_last());
        assert((s + t).drop_last() =~= s + t.drop_last());
    }
}

/// Of folders that were all found in folder `index`, those found in folder `i`.
proof fn lemma_waiting_photos_of_one(
    to_read: Seq<(Seq<char>, int)>,
    trees: Seq<FileTree>,
    index: int,
    i: int,
)
    requires
        to_read.len() == trees.len(),
        forall|j: int| 0 <= j < to_read.len() ==> (#[trigger] to_read[j]).1 == index,
    ensures
        waiting_photos(to_read, trees, i) == if i == index {
            photos_in_all(trees)
        } else {
            0
        },
    decreases trees.len(),
{
    if trees.len() > 0 {
        let front = to_read.drop_last();
        assert forall|j: int| 0 <= j < front.len() implies (#[trigger] front[j]).1 == index by {
            assert(front[j] == to_read[j]);
        }
        lemma_waiting_photos_of_one(front, trees.drop_last(), index, i);
        assert(to_read[to_read.len() - 1].1 == index);
    }
}

/// Nothing still to be read was found in folder `i`.
proof fn lemma_no_waiting_photos(to_read: Seq<(Seq<char>, int)>, trees: Seq<FileTree>, i: int)
    requires
        to_read.len() == trees.len(),
        forall|j: int| 0 <= j < to_read.len() ==> (#[trigger] to_read[j]).1 != i,
    ensures
        waiting_photos(to_read, trees, i) == 0,
    decreases trees.len(),
{
    if trees.len() > 0 {
        let front = to_read.drop_last();
        assert forall|j: int| 0 <= j < front.len() implies (#[trigger] front[j]).1 != i by {
            assert(front[j] == to_read[j]);
        }
        lemma_no_waiting_photos(front, trees.drop_last(), i);
        assert(to_read[to_read.len() - 1].1 != i);
    }
}

/// What was found in folder `i` among the first `k` folders is not changed by
/// reading one folder more; and nothing was found in a folder not yet read.
proof fn lemma_kid_photos_of_prefix(
    folders: Seq<Folder>,
    places: Seq<(Seq<char>, FileTree)>,
    here: Folder,
    place: (Seq<char>, FileTree),
    i: int,
    k: int,
)
    requires
        is_tree(folders),
        folders.len() == places.len(),
        k <= folders.len(),
    ensures
        kid_photos(folders.push(here), places.push(place), i, k) == kid_photos(
            folders,
            places,
            i,
            k,
        ),
        i >= folders.len() ==> kid_photos(folders, places, i, k) == 0,
    decreases k,
{
    if k > 1 {
        lemma_kid_photos_of_prefix(folders, places, here, place, i, k - 1);
        assert(folders.push(here)[k - 1] == folders[k - 1]);
        assert(places.push(place)[k - 1] == places[k - 1]);
    }
}

/// A walk that has read `folders`, at `places`, reads beside them every folder of
/// the trees still to be read, each at its place.
proof fn lemma_walked(
    folders: Seq<Folder>,
    to_read: Seq<(Seq<char>, int)>,
    trees: Seq<FileTree>,
    places: Seq<(Seq<char>, FileTree)>,
)
    requires
        is_tree(folders),
        are_found(folders, to_read),
        to_read.len() == trees.len(),
        folders.len() == 0 ==> trees.len() == 1,
        forall|i: int| 0 <= i < trees.len() ==> is_complete(#[trigger] trees[i]),
        are_at(folders, places),
        are_accounted(folders, places, to_read, trees),
    ensures
        ({
            let read = walked(folders, to_read, trees);
            let all = places + located_all(paths_of(to_read), trees);
            &&& is_tree(read)
            &&& are_at(read, all)
            &&& are_accounted(read, all, Seq::empty(), Seq::empty())
        }),
    decreases folders_in_all(trees),
{
    if trees.len() > 0 {
        let (path, parent) = to_read.last();
        let tree = trees.last();
        let n = folders.len() as int;
        let here = Folder {
            path,
            parent,
            photos: direct_photos(tree.entries),
            albums: subfolders(tree.entries).len(),
        };
        let next = folders.push(here);
        let known = places.push((path, tree));
        let front = to_read.drop_last();
        let found = to_visit(path, n, subfolders(tree.entries));
        let rest = front + found;
        let more = trees.drop_last() + tree.subs;
        lemma_last_tree(trees);
        lemma_folders_append(trees.drop_last(), tree.subs);
        assert(to_read[to_read.len() - 1].1 == parent);
        assert(is_complete(trees[trees.len() - 1]));
        assert(is_tree(next)) by {
            assert forall|j: int| 0 < j < next.len() implies 0 <= (#[trigger] next[j]).parent < j by {
                if j < n {
                    assert(next[j] == folders[j]);
                }
            }
        }
        assert(are_found(next, rest)) by {
            assert forall|i: int| 0 <= i < rest.len() implies 0 <= (#[trigger] rest[i]).1
                && rest[i].1 < next.len() by {
                if i < front.len() {
                    assert(rest[i] == to_read[i]);
                }
            }
        }
        assert forall|i: int| 0 <= i < more.len() implies is_complete(#[trigger] more[i]) by {
            if i < trees.len() - 1 {
                assert(more[i] == trees[i]);
            } else {
                assert(more[i] == tree.subs[i - (trees.len() - 1)]);
            }
        }
        assert(are_at(next, known)) by {
            assert forall|i: int| 0 <= i < next.len() implies {
                &&& (#[trigger] next[i]).path == known[i].0
                &&& next[i].photos == direct_photos(known[i].1.entries)
                &&& next[i].albums == subfolders(known[i].1.entries).len()
                &&& is_complete(known[i].1)
            } by {
                if i < n {
                    assert(next[i] == folders[i]);
                    assert(known[i] == places[i]);
                }
            }
        }
        assert(are_accounted(next, known, rest, more)) by {
            assert forall|i: int| 0 <= i < next.len() implies photos_in_all(
                (#[trigger] known[i]).1.subs,
            ) == kid_photos(next, known, i, next.len() as int) + waiting_photos(rest, more, i) by {
                lemma_kid_photos_of_prefix(folders, places, here, (path, tree), i, n);
                lemma_waiting_photos_append(front, found, trees.drop_last(), tree.subs, i);
                lemma_waiting_photos_of_one(found, tree.subs, n, i);
                assert(next[n] == here);
                assert(known[n] == (path, tree));
                if i < n {
                    assert(known[i] == places[i]);
                } else {
                    assert forall|j: int| 0 <= j < front.len() implies (#[trigger] front[j]).1
                        != i by {
                        assert(front[j] == to_read[j]);
                    }
                    lemma_no_waiting_photos(front, trees.drop_last(), i);
                }
            }
        }
        lemma_walked(next, rest, more, known);
        let paths = paths_of(to_read);
        let inner = child_paths(path, tree.entries);
        lemma_located_append(paths.drop_last(), inner, trees.drop_last(), tree.subs);
        assert(paths_of(rest) =~= paths.drop_last() + inner);
        reveal_with_fuel(located, 2);
        reveal_with_fuel(located_all, 2);
        assert(known + located_all(paths_of(rest), more) =~= places + located_all(paths, trees));
    } else {
        assert(places + located_all(paths_of(to_read), trees) =~= places);
    }
}

/// The subtree photos of the folders found in folder `i` are the photos in their
/// trees.
proof fn lemma_child_totals(
    folders: Seq<Folder>,
    places: Seq<(Seq<char>, FileTree)>,
    i: int,
    lo: int,
)
    requires
        is_tree(folders),
        are_at(folders, places),
        are_accounted(folders, places, Seq::empty(), Seq::empty()),
        0 <= i < folders.len(),
        0 <= lo <= folders.len(),
    ensures
        child_photos(folders, i, lo) + kid_photos(folders, places, i, lo) == kid_photos(
            folders,
            places,
            i,
            folders.len() as int,
        ),
    decreases folders.len() - i, folders.len() - lo,
{
    if lo < folders.len() {
        lemma_child_totals(folders, places, i, lo + 1);
        if lo > 0 && folders[lo].parent == i {
            lemma_totals(folders, places, lo);
        }
    }
}

/// The subtree photos of a folder are the photos in its tree.
proof fn lemma_totals(folders: Seq<Folder>, places: Seq<(Seq<char>, FileTree)>, i: int)
    requires
        is_tree(folders),
        are_at(folders, places),
        are_accounted(folders, places, Seq::empty(), Seq::empty()),
        0 <= i < folders.len(),
    ensures
        subtree_photos(folders, i) == photos_in(places[i].1),
    decreases folders.len() - i, folders.len() + 1,
{
    law_counts_are_recursive(folders, i);
    lemma_child_totals(folders, places, i, 0);
    assert(folders[i].photos == direct_photos(places[i].1.entries));
}

/// A walk of a whole tree, with what holds of each folder it reads.
proof fn lemma_walk(folder: Seq<char>, tree: FileTree)
    requires
        is_complete(tree),
    ensures
        is_tree(walked(Seq::empty(), seq![(folder, 0int)], seq![tree])),
        are_at(walked(Seq::empty(), seq![(folder, 0int)], seq![tree]), located(folder, tree)),
        are_accounted(
            walked(Seq::empty(), seq![(folder, 0int)], seq![tree]),
            located(folder, tree),
            Seq::empty(),
            Seq::empty(),
        ),
{
    let none = Seq::<(Seq<char>, FileTree)>::empty();
    let to_read = seq![(folder, 0int)];
    let trees = seq![tree];
    lemma_walked(Seq::empty(), to_read, trees, none);
    let paths = paths_of(to_read);
    assert(paths.last() == folder);
    assert(trees.drop_last() =~= Seq::<FileTree>::empty());
    reveal_with_fuel(located_all, 2);
    assert(none + located_all(paths, trees) =~= located(folder, tree));
}

/// A complete walk of a tree reaches every folder of it, each once and at its own
/// path. It gives each the number of photos in its whole subtree and the number of
/// subfolders directly inside it, however the tree is shaped.
pub proof fn law_a_walk_counts_every_folder(folder: Seq<char>, tree: FileTree)
    requires
        is_complete(tree),
    ensures
        ({
            let read = walked(Seq::empty(), seq![(folder, 0int)], seq![tree]);
            let places = located(folder, tree);
            &&& read.len() == places.len() == folders_in(tree)
            &&& forall|i: int|
                0 <= i < read.len() ==> {
                    &&& (#[trigger] read[i]).path == places[i].0
                    &&& totals_of(read, i) == (
                        photos_in(places[i].1),
                        subfolders(places[i].1.entries).len(),
                    )
                }
        }),
{
    let read = walked(Seq::empty(), seq![(folder, 0int)], seq![tree]);
    let places = located(folder, tree);
    lemma_walk(folder, tree);
    lemma_located_count(folder, tree);
    assert forall|i: int| 0 <= i < read.len() implies {
        &&& (#[trigger] read[i]).path == places[i].0
        &&& totals_of(read, i) == (photos_in(places[i].1), subfolders(places[i].1.entries).len())
    } by {
        lemma_totals(read, places, i);
    }
}

proof fn lemma_located_count(path: Seq<char>, tree: FileTree)
    requires
        is_complete(tree),
    ensures
        located(path, tree).len() == folders_in(tree),
    decreases tree,
{
    lemma_located_count_all(child_paths(path, tree.entries), tree.subs);
}

proof fn lemma_located_count_all(paths: Seq<Seq<char>>, trees: Seq<FileTree>)
    requires
        paths.len() == trees.len(),
        forall|i: int| 0 <= i < trees.len() ==> is_complete(#[trigger] trees[i]),
    ensures
        located_all(paths, trees).len() == folders_in_all(trees),
    decreases trees,
{
    if trees.len() > 0 {
        assert(is_complete(trees[trees.len() - 1]));
        lemma_located_count(paths.last(), trees.last());
        lemma_located_count_all(paths.drop_last(), trees.drop_last());
    }
}

/// A complete walk of a tree gives its top folder the number of photos in the
/// whole tree, however the tree is shaped.
pub proof fn law_a_walk_counts_the_whole_tree(folder: Seq<char>, tree: FileTree)
    requires
        is_complete(tree),
    ensures
        ({
            let read = walked(Seq::empty(), seq![(folder, 0int)], seq![tree]);
            &&& read.len() > 0
            &&& read[0].path == folder
            &&& totals_of(read, 0) == (photos_in(tree), subfolders(tree.entries).len())
        }),
{
    law_a_walk_counts_every_folder(folder, tree);
    assert(located(folder, tree)[0] == (folder, tree));
}

/// A folder counts the same on its own as within a walk of any folder that holds
/// it.
pub proof fn law_a_folder_counts_the_same_on_its_own(folder: Seq<char>, tree: FileTree, i: int)
    requires
        is_complete(tree),
        0 <= i < located(folder, tree).len(),
    ensures
        ({
            let (path, sub) = located(folder, tree)[i];
            let read = walked(Seq::empty(), seq![(folder, 0int)], seq![tree]);
            let own = walked(Seq::empty(), seq![(path, 0int)], seq![sub]);
            &&& own[0].path == read[i].path
            &&& totals_of(own, 0) == totals_of(read, i)
        }),
{
    let (path, sub) = located(folder, tree)[i];
    let read = walked(Seq::empty(), seq![(folder, 0int)], seq![tree]);
    lemma_walk(folder, tree);
    law_a_walk_counts_every_folder(folder, tree);
    assert(read[i].path == path);
    assert(is_complete(sub));
    law_a_walk_counts_the_whole_tree(path, sub);
}

/// The photos of a subtree are those of its top folder and those of the
/// subtrees found directly in it, each counted once.
pub proof fn law_counts_are_recursive(folders: Seq<Folder>, i: int)
    requires
        is_tree(folders),
        0 <= i < folders.len(),
    ensures
        subtree_photos(folders, i) == folders[i].photos + child_photos(folders, i, 0),
{
    lemma_photos_below_is_sum(folders, i, folders.len() as int);
    lemma_child_photos_below_all(folders, i, 0);
}

/// What one more entry adds to the counts of its folder: a photo where it is a file
/// or a link that does not lead to a directory, with a media name; an album where it
/// is a real directory; and nothing where it is hidden, called `thumbs`, or anything
/// else.
pub proof fn law_what_an_entry_adds(entries: Seq<DirEntry>, e: DirEntry)
    ensures
        ({
            let ordinary = !(e.name@.len() > 0 && e.name@[0] == '.') && e.name@ != "thumbs"@;
            let is_media = util::image_name(e.name@) || util::video_name(e.name@);
            let photo = ordinary && is_media && match e.kind {
                EntryKind::File => true,
                EntryKind::Link(LinkTarget::Dir) => false,
                EntryKind::Link(_) => true,
                EntryKind::Dir | EntryKind::Unknown => false,
            };
            let album = ordinary && e.kind is Dir;
            &&& direct_photos(entries.push(e)) == direct_photos(entries) + if photo {
                1int
            } else {
                0
            }
            &&& subfolders(entries.push(e)) == if album {
                subfolders(entries).push(e)
            } else {
                subfolders(entries)
            }
        }),
        direct_photos(Seq::empty()) == 0,
        subfolders(Seq::empty()) == Seq::<DirEntry>::empty(),
{
    reveal(Seq::filter);
    assert(entries.push(e).drop_last() =~= entries);
    assert(entries.push(e).last() == e);
}

/// The photos of a tree are those of its top folder and of the trees in it, and its
/// folders are its top and theirs.
pub proof fn law_a_tree_counts_what_is_in_it(
    entries: Seq<DirEntry>,
    subs: Seq<FileTree>,
    sub: FileTree,
)
    ensures
        photos_in(FileTree { entries, subs: Seq::empty() }) == direct_photos(entries),
        folders_in(FileTree { entries, subs: Seq::empty() }) == 1,
        photos_in(FileTree { entries, subs: subs.push(sub) }) == photos_in(
            FileTree { entries, subs },
        ) + photos_in(sub),
        folders_in(FileTree { entries, subs: subs.push(sub) }) == folders_in(
            FileTree { entries, subs },
        ) + folders_in(sub),
{
    reveal_with_fuel(photos_in, 2);
    reveal_with_fuel(folders_in, 2);
    reveal_with_fuel(photos_in_all, 2);
    reveal_with_fuel(folders_in_all, 2);
    assert(subs.push(sub).drop_last() =~= subs);
}

/// Every folder of a tree is located: its top at its own path, and whatever is
/// located in the tree of a subfolder, whose path is that of the top and one name
/// more.
pub proof fn law_every_folder_of_a_tree_is_located(
    path: Seq<char>,
    tree: FileTree,
    k: int,
    place: (Seq<char>, FileTree),
)
    requires
        is_complete(tree),
    ensures
        located(path, tree).contains((path, tree)),
        0 <= k < tree.subs.len() && located(
            entry::child_path(path, subfolders(tree.entries)[k].name@),
            tree.subs[k],
        ).contains(place) ==> located(path, tree).contains(place),
{
    let inner = located_all(child_paths(path, tree.entries), tree.subs);
    let all = seq![(path, tree)] + inner;
    assert(all[0] == (path, tree));
    let paths = child_paths(path, tree.entries);
    if 0 <= k < tree.subs.len() && located(paths[k], tree.subs[k]).contains(place) {
        lemma_located_in(paths, tree.subs, k, place);
        let i = choose|i: int| 0 <= i < inner.len() && inner[i] == place;
        assert(all[i + 1] == place);
    }
}

proof fn lemma_located_in(
    paths: Seq<Seq<char>>,
    trees: Seq<FileTree>,
    k: int,
    place: (Seq<char>, FileTree),
)
    requires
        paths.len() == trees.len(),
        0 <= k < trees.len(),
        located(paths[k], trees[k]).contains(place),
    ensures
        located_all(paths, trees).contains(place),
    decreases trees.len(),
{
    let first = located(paths.last(), trees.last());
    let rest = located_all(paths.drop_last(), trees.drop_last());
    if k == trees.len() - 1 {
        let i = choose|i: int| 0 <= i < first.len() && first[i] == place;
        assert((first + rest)[i] == place);
    } else {
        assert(paths.drop_last()[k] == paths[k] && trees.drop_last()[k] == trees[k]);
        lemma_located_in(paths.drop_last(), trees.drop_last(), k, place);
        let i = choose|i: int| 0 <= i < rest.len() && rest[i] == place;
        assert((first + rest)[first.len() + i] == place);
    }
}

/// What a walk found for a folder is its last count of it, and zero where it has
/// none.
pub proof fn law_the_last_count_of_a_folder_counts(
    counts: Seq<(String, Counts)>,
    count: (String, Counts),
    other: Seq<char>,
)
    ensures
        found(counts.push(count), count.0@) == Some(count.1),
        other != count.0@ ==> found(counts.push(count), other) == found(counts, other),
        found(Seq::empty(), other) is None,
        found(counts, other) is None ==> counts_found(counts, other) == (0usize, 0usize),
        found(counts, other) is Some ==> counts_found(counts, other) == found(counts, other)->0,
{
    assert(counts.push(count).drop_last() =~= counts);
}

/// While there is room nothing is dropped: publishing a walk in time makes its counts
/// live, and leaves those of other folders as they were.
pub proof fn law_a_walk_in_time_is_kept(
    s: CacheState<Counts>,
    counts: Seq<(String, Counts)>,
    folder: Seq<char>,
)
    requires
        s.entries.len() + counts.len() <= 16384,
    ensures
        cache::live(arrived(s, s.generation, counts), folder) == if found(counts, folder) is Some {
            found(counts, folder)
        } else {
            cache::live(s, folder)
        },
{
    lemma_published(s, counts, folder);
}

} // verus!
