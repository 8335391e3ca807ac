//! Directory entries, as the file system reports them.
//!
//! A listing is what one directory holds: the names, and what each entry is. A
//! symbolic link is reported as a link, together with what its target is, so
//! that each reader can decide whether to follow it.

use crate::text;
use crate::util;
use vstd::prelude::*;

verus! {

/// What a symbolic link leads to.
#[derive(Debug, Clone, Copy, PartialEq, Eq, Structural)]
pub enum LinkTarget {
    File,
    Dir,
    /// The target does not exist or cannot be read.
    Missing,
}

/// What a directory entry is.
#[derive(Debug, Clone, Copy, PartialEq, Eq, Structural)]
pub enum EntryKind {
    /// Anything that is neither a directory nor a link.
    File,
    Dir,
    Link(LinkTarget),
    /// The entry could not be examined.
    Unknown,
}

/// One entry of a directory.
#[derive(Debug, Clone)]
pub struct DirEntry {
    pub name: String,
    pub kind: EntryKind,
}

/// The content of a [`DirEntry`].
pub struct EntryView {
    pub name: Seq<char>,
    pub kind: EntryKind,
}

impl View for DirEntry {
    type V = EntryView;

    open spec fn view(&self) -> EntryView {
        EntryView { name: self.name@, kind: self.kind }
    }
}

/// The contents of the entries of a listing.
pub open spec fn entry_views(entries: Seq<DirEntry>) -> Seq<EntryView> {
    entries.map_values(|e: DirEntry| e@)
}

/// Whether the album passes over an entry of this name: it is hidden, or it is a
/// folder of generated thumbnails.
pub open spec fn is_passed_over(name: Seq<char>) -> bool {
    (name.len() > 0 && name[0] == '.') || name == "thumbs"@
}

/// Whether an entry is a folder of the album: a real directory that is not
/// passed over. A link to a directory is not one, because it may lead outside
/// the album or back up its own tree.
pub open spec fn is_subfolder(e: EntryView) -> bool {
    !is_passed_over(e.name) && e.kind == EntryKind::Dir
}

/// Whether an entry can be shown as a photo or video: a media name on a file, or
/// on a link that leads to a file.
pub open spec fn is_shown_media(e: EntryView) -> bool {
    &&& !is_passed_over(e.name)
    &&& util::media_name(e.name)
    &&& e.kind == EntryKind::File || e.kind == EntryKind::Link(LinkTarget::File)
}

/// Whether an entry adds to the photo count of its folder: a media name on
/// anything that is not a directory, followed through a link.
pub open spec fn is_counted_media(e: EntryView) -> bool {
    &&& !is_passed_over(e.name)
    &&& util::media_name(e.name)
    &&& e.kind != EntryKind::Dir && e.kind != EntryKind::Link(LinkTarget::Dir) && e.kind
        != EntryKind::Unknown
}

/// The album path of the entry `name` in the folder `parent`.
pub open spec fn child_path(parent: Seq<char>, name: Seq<char>) -> Seq<char> {
    if parent.len() == 0 {
        name
    } else {
        parent + "/"@ + name
    }
}

/// Where an entry called `name` goes in a listing ordered by name: behind every
/// entry that does not follow it.
pub open spec fn place_of(ordered: Seq<EntryView>, name: Seq<char>) -> int
    decreases ordered.len(),
{
    if ordered.len() == 0 || text::text_le(ordered.last().name, name) {
        ordered.len() as int
    } else {
        place_of(ordered.drop_last(), name)
    }
}

/// A listing ordered by name.
pub open spec fn by_name(entries: Seq<EntryView>) -> Seq<EntryView>
    decreases entries.len(),
{
    if entries.len() == 0 {
        entries
    } else {
        let rest = by_name(entries.drop_last());
        rest.insert(place_of(rest, entries.last().name), entries.last())
    }
}

/// Whether no entry comes before one it follows by name.
pub open spec fn is_ordered(entries: Seq<EntryView>) -> bool {
    forall|i: int, j: int|
        0 <= i < j < entries.len() ==> text::text_le(
            (#[trigger] entries[i]).name,
            (#[trigger] entries[j]).name,
        )
}

/// The names of the entries.
pub open spec fn names_of(entries: Seq<EntryView>) -> Seq<Seq<char>> {
    entries.map_values(|e: EntryView| e.name)
}

proof fn lemma_place(ordered: Seq<EntryView>, name: Seq<char>)
    requires
        is_ordered(ordered),
    ensures
        0 <= place_of(ordered, name) <= ordered.len(),
        forall|i: int|
            0 <= i < place_of(ordered, name) ==> text::text_le(
                (#[trigger] ordered[i]).name,
                name,
            ),
        forall|i: int|
            place_of(ordered, name) <= i < ordered.len() ==> !text::text_le(
                (#[trigger] ordered[i]).name,
                name,
            ),
    decreases ordered.len(),
{
    if ordered.len() > 0 {
        if text::text_le(ordered.last().name, name) {
            assert forall|i: int| 0 <= i < ordered.len() implies text::text_le(
                (#[trigger] ordered[i]).name,
                name,
            ) by {
                if i < ordered.len() - 1 {
                    text::lemma_text_le_transitive(ordered[i].name, ordered.last().name, name);
                }
            }
        } else {
            let front = ordered.drop_last();
            lemma_place(front, name);
            assert forall|i: int| 0 <= i < front.len() implies ordered[i] == #[trigger] front[i] by {
            }
            assert forall|i: int| 0 <= i < place_of(ordered, name) implies text::text_le(
                (#[trigger] ordered[i]).name,
                name,
            ) by {
                assert(front[i] == ordered[i]);
            }
            assert forall|i: int| place_of(ordered, name) <= i < ordered.len() implies !text::text_le(
                (#[trigger] ordered[i]).name,
                name,
            ) by {
                if i < front.len() {
                    assert(front[i] == ordered[i]);
                }
            }
        }
    }
}

/// Ordering a listing by name puts no entry before one it follows, and neither
/// adds nor loses an entry.
pub proof fn law_ordering_by_name(entries: Seq<EntryView>)
    ensures
        is_ordered(by_name(entries)),
        by_name(entries).to_multiset() == entries.to_multiset(),
        by_name(entries).len() == entries.len(),
    decreases entries.len(),
{
    if entries.len() > 0 {
        let e = entries.last();
        let rest = by_name(entries.drop_last());
        law_ordering_by_name(entries.drop_last());
        lemma_place(rest, e.name);
        let p = place_of(rest, e.name);
        let all = rest.insert(p, e);
        assert forall|i: int, j: int| 0 <= i < j < all.len() implies text::text_le(
            (#[trigger] all[i]).name,
            (#[trigger] all[j]).name,
        ) by {
            let a = if i < p {
                i
            } else {
                i - 1
            };
            let b = if j < p {
                j
            } else {
                j - 1
            };
            if i == p {
                assert(all[j] == rest[b]);
                text::lemma_text_le_total(e.name, rest[b].name);
            } else if j == p {
                assert(all[i] == rest[a]);
            } else {
                assert(all[i] == rest[a]);
                assert(all[j] == rest[b]);
            }
        }
        vstd::seq_lib::to_multiset_insert(rest, p, e);
        assert(entries =~= entries.drop_last().push(e));
        vstd::seq_lib::to_multiset_build(entries.drop_last(), e);
    }
}

/// Orders a listing by name.
pub fn sort_by_name(entries: Vec<DirEntry>) -> (r: Vec<DirEntry>)
    ensures
        entry_views(r@) == by_name(entry_views(entries@)),
{
    let ghost all = entry_views(entries@);
    let mut out: Vec<DirEntry> = Vec::new();
    let mut keys: Vec<Vec<char>> = Vec::new();
    let mut i: usize = 0;
    proof {
        assert(all.take(0) =~= Seq::<EntryView>::empty());
        assert(entry_views(out@) =~= Seq::<EntryView>::empty());
        assert(text::views(keys@) =~= names_of(entry_views(out@)));
    }
    while i < entries.len()
        invariant
            i <= entries@.len(),
            all == entry_views(entries@),
            entry_views(out@) == by_name(all.take(i as int)),
            out@.len() == keys@.len() == i,
            text::views(keys@) == names_of(entry_views(out@)),
        decreases entries.len() - i,
    {
        let key = text::to_chars(&entries[i].name);
        let ghost ordered = entry_views(out@);
        let ghost was = keys@;
        let at = place_for(&keys, &key, Ghost(ordered), Ghost(all.take(i as int)));
        let e = DirEntry { name: entries[i].name.clone(), kind: entries[i].kind };
        proof {
            assert(all.take(i + 1).drop_last() =~= all.take(i as int));
            assert(all.take(i + 1).last() == e@);
        }
        let ghost key_view = key@;
        out.insert(at, e);
        keys.insert(at, key);
        proof {
            assert(entry_views(out@) =~= ordered.insert(at as int, e@));
            assert(text::views(keys@) =~= text::views(was).insert(at as int, key_view));
            assert(names_of(ordered.insert(at as int, e@)) =~= names_of(ordered).insert(
                at as int,
                key_view,
            ));
        }
        i = i + 1;
    }
    proof {
        assert(all.take(i as int) =~= all);
    }
    out
}

/// Finds by bisection where a name goes among the ordered `keys`.
fn place_for(
    keys: &Vec<Vec<char>>,
    key: &Vec<char>,
    Ghost(ordered): Ghost<Seq<EntryView>>,
    Ghost(source): Ghost<Seq<EntryView>>,
) -> (r: usize)
    requires
        ordered == by_name(source),
        text::views(keys@) == names_of(ordered),
    ensures
        r == place_of(ordered, key@),
        r <= keys@.len(),
{
    let mut lo: usize = 0;
    let mut hi: usize = keys.len();
    proof {
        law_ordering_by_name(source);
        lemma_place(ordered, key@);
        assert(text::views(keys@).len() == ordered.len());
    }
    while lo < hi
        invariant
            0 <= lo <= place_of(ordered, key@) <= hi <= keys@.len(),
            ordered.len() == keys@.len(),
            text::views(keys@) == names_of(ordered),
            forall|i: int|
                0 <= i < place_of(ordered, key@) ==> text::text_le(
                    (#[trigger] ordered[i]).name,
                    key@,
                ),
            forall|i: int|
                place_of(ordered, key@) <= i < ordered.len() ==> !text::text_le(
                    (#[trigger] ordered[i]).name,
                    key@,
                ),
        decreases hi - lo,
    {
        let mid: usize = lo + (hi - lo) / 2;
        proof {
            assert(text::views(keys@)[mid as int] == keys@[mid as int]@);
            assert(names_of(ordered)[mid as int] == ordered[mid as int].name);
        }
        if text::text_at_most(&keys[mid], key) {
            lo = mid + 1;
        } else {
            hi = mid;
        }
    }
    lo
}

/// Whether the album passes over an entry of this name.
pub fn passed_over(name: &str) -> (r: bool)
    ensures
        r == is_passed_over(name@),
{
    let chars = text::to_chars(name);
    (chars.len() > 0 && chars[0] == '.') || text::same_text(name, "thumbs")
}

/// Whether a directory entry is a real subfolder worth searching.
pub fn is_searchable_dir(entry: &DirEntry) -> (r: bool)
    ensures
        r == is_subfolder(entry@),
{
    !passed_over(&entry.name) && entry.kind == EntryKind::Dir
}

/// Whether an entry can be shown as a photo or video.
pub fn shown_media(entry: &DirEntry) -> (r: bool)
    ensures
        r == is_shown_media(entry@),
{
    !passed_over(&entry.name) && (entry.kind == EntryKind::File || entry.kind == EntryKind::Link(
        LinkTarget::File,
    )) && util::is_media_file(&entry.name)
}

/// Whether an entry adds to the photo count of its folder.
pub fn counted_media(entry: &DirEntry) -> (r: bool)
    ensures
        r == is_counted_media(entry@),
{
    !passed_over(&entry.name) && entry.kind != EntryKind::Dir && entry.kind != EntryKind::Link(
        LinkTarget::Dir,
    ) && entry.kind != EntryKind::Unknown && util::is_media_file(&entry.name)
}

/// The album path of the entry `name` in the folder `parent`.
pub fn child_of(parent: &str, name: &str) -> (r: String)
    ensures
        r@ == child_path(parent@, name@),
{
    if parent.is_empty() {
        name.to_owned()
    } else {
        let mut out: String = parent.to_owned();
        out.append("/");
        out.append(name);
        out
    }
}

/// What becomes of an entry, by what it is. An entry that is hidden or called
/// `thumbs` is nothing at all. Of the others a directory is a folder, and never a
/// photo; a file with a media name is shown and counted, directly or through a
/// link; a link that leads nowhere still counts, but is not shown; and a link to a
/// directory, or what could not be examined, is nothing.
pub proof fn law_what_an_entry_is(e: EntryView)
    ensures
        ({
            let ordinary = !(e.name.len() > 0 && e.name[0] == '.') && e.name != "thumbs"@;
            let photo = ordinary && util::media_name(e.name);
            match e.kind {
                EntryKind::Dir => is_subfolder(e) == ordinary && !is_shown_media(e)
                    && !is_counted_media(e),
                EntryKind::File | EntryKind::Link(LinkTarget::File) => !is_subfolder(e)
                    && is_shown_media(e) == photo && is_counted_media(e) == photo,
                EntryKind::Link(LinkTarget::Missing) => !is_subfolder(e) && !is_shown_media(e)
                    && is_counted_media(e) == photo,
                EntryKind::Link(LinkTarget::Dir) | EntryKind::Unknown => !is_subfolder(e)
                    && !is_shown_media(e) && !is_counted_media(e),
            }
        }),
{
}

/// The path of an entry goes through its folder: in the album root it is the name,
/// and elsewhere the segments of the folder and then those of the name.
pub proof fn law_an_entry_lies_in_its_folder(parent: Seq<char>, name: Seq<char>)
    ensures
        parent.len() == 0 ==> child_path(parent, name) == name,
        parent.len() > 0 ==> {
            &&& child_path(parent, name).len() == parent.len() + 1 + name.len()
            &&& text::split(child_path(parent, name), '/') == text::split(parent, '/')
                + text::split(name, '/')
        },
{
    reveal_strlit("/");
    if parent.len() > 0 {
        assert(child_path(parent, name) =~= parent.push('/') + name);
        text::lemma_split_append(parent, name, '/');
    }
}

} // verus!
