//! The listing of one folder.
//!
//! A folder is listed in two steps. [`plan_listing`] orders what the directory
//! holds and splits it into subfolders and media, which says what has to be
//! looked up. [`build_album_response`] puts the results together.

use crate::counts::Counts;
use crate::db::PhotoMeta;
use crate::entry;
use crate::entry::DirEntry;
use crate::entry::EntryView;
use crate::models::Album;
use crate::models::AlbumResponse;
use crate::models::Breadcrumb;
use crate::models::Crumb;
use crate::models::FolderEntry;
use crate::models::FolderItem;
use crate::models::PhotoEntry;
use crate::models::PhotoItem;
use crate::path;
use crate::search;
use crate::text;
use crate::util;
use vstd::hash_map::StringHashMap;
use vstd::prelude::*;

verus! {

/// What a folder holds, in name order.
pub struct ListingPlan {
    /// The album paths of the subfolders.
    pub subfolders: Vec<String>,
    /// The names of the photos and videos.
    pub media: Vec<String>,
    /// The album paths of the photos and videos.
    pub photo_paths: Vec<String>,
}

/// What was found out about a subfolder.
pub struct FolderFacts {
    /// The photos in its subtree and the albums directly inside it.
    pub counts: Counts,
    /// The image stored as its cover.
    pub stored: Option<String>,
    /// Whether that image still exists.
    pub stored_exists: bool,
    /// The cover a search found. It counts only where the stored one does not.
    pub computed: Option<String>,
}

/// The content of [`FolderFacts`].
pub struct Facts {
    pub counts: Counts,
    pub stored: Option<Seq<char>>,
    pub stored_exists: bool,
    pub computed: Option<Seq<char>>,
}

impl View for FolderFacts {
    type V = Facts;

    open spec fn view(&self) -> Facts {
        Facts {
            counts: self.counts,
            stored: util::opt_view(self.stored),
            stored_exists: self.stored_exists,
            computed: util::opt_view(self.computed),
        }
    }
}

/// The breadcrumb of the `i`th segment of a path.
pub open spec fn crumb_at(parts: Seq<Seq<char>>, i: int) -> Crumb {
    Crumb { name: parts[i], path: text::join(parts.take(i + 1), '/') }
}

/// The breadcrumbs of a path: the album root, then every folder on the way.
pub open spec fn crumbs(rel: Seq<char>) -> Seq<Crumb> {
    let home = seq![Crumb { name: "Home"@, path: Seq::<char>::empty() }];
    let parts = path::segments(rel);
    if rel.len() == 0 {
        home
    } else {
        home + Seq::new(parts.len(), |i: int| crumb_at(parts, i))
    }
}

/// The album paths of the subfolders among `entries`, in name order.
pub open spec fn subfolders_in(rel: Seq<char>, entries: Seq<EntryView>) -> Seq<Seq<char>> {
    entry::by_name(entries).filter(|e: EntryView| entry::is_subfolder(e)).map_values(
        |e: EntryView| entry::child_path(rel, e.name),
    )
}

/// The names of the photos and videos among `entries`, in name order.
pub open spec fn media_in(entries: Seq<EntryView>) -> Seq<Seq<char>> {
    entry::by_name(entries).filter(|e: EntryView| entry::is_shown_media(e)).map_values(
        |e: EntryView| e.name,
    )
}

/// The album paths of the photos and videos of the folder `rel`.
pub open spec fn media_paths(rel: Seq<char>, media: Seq<Seq<char>>) -> Seq<Seq<char>> {
    media.map_values(|name: Seq<char>| entry::child_path(rel, name))
}

/// The last of the rows stored under each path.
pub open spec fn row_map(rows: Seq<(String, PhotoMeta)>) -> Map<Seq<char>, PhotoMeta>
    decreases rows.len(),
{
    if rows.len() == 0 {
        Map::empty()
    } else {
        row_map(rows.drop_last()).insert(rows.last().0@, rows.last().1)
    }
}

/// The cover of a subfolder: the stored one while its image exists, or else the
/// computed one.
pub open spec fn cover_of(sub_path: Seq<char>, facts: Facts) -> Option<Seq<char>> {
    match explicit(sub_path, facts.stored, facts.stored_exists) {
        Some(thumb) => Some(thumb),
        None => facts.computed,
    }
}

/// The thumbnail of the stored cover, while its image exists.
pub open spec fn explicit(
    sub_path: Seq<char>,
    stored: Option<Seq<char>>,
    stored_exists: bool,
) -> Option<Seq<char>> {
    match stored {
        Some(image) => if stored_exists {
            search::cover_thumb(sub_path, image)
        } else {
            None
        },
        None => None,
    }
}

/// The listing of a subfolder.
pub open spec fn folder_entry(sub_path: Seq<char>, facts: Facts) -> FolderEntry {
    FolderEntry {
        name: path::segments(sub_path).last(),
        path: sub_path,
        cover: cover_of(sub_path, facts),
        count_photos: facts.counts.0,
        count_albums: facts.counts.1,
    }
}

/// The duration a listing gives: that of a video, where it is known and not
/// zero.
pub open spec fn shown_duration(name: Seq<char>, duration: Option<u64>) -> Option<u64> {
    if util::video_name(name) && duration is Some && duration->0 > 0 {
        duration
    } else {
        None
    }
}

/// The listing of a photo or video.
pub open spec fn photo_entry(name: Seq<char>, meta: Option<PhotoMeta>) -> PhotoEntry {
    PhotoEntry {
        name,
        media_type: util::media_type_of(name),
        thumb: "thumbs/"@ + util::thumb_name_of(name),
        width: match meta {
            Some(m) => m.width,
            None => 0,
        },
        height: match meta {
            Some(m) => m.height,
            None => 0,
        },
        duration: match meta {
            Some(m) => shown_duration(name, m.duration),
            None => None,
        },
    }
}

/// The row stored under `path`.
pub open spec fn row_of(rows: Map<Seq<char>, PhotoMeta>, path: Seq<char>) -> Option<PhotoMeta> {
    if rows.contains_key(path) {
        Some(rows[path])
    } else {
        None
    }
}

/// The name of the folder at `abs_path`.
pub open spec fn folder_name(abs_path: Seq<char>) -> Seq<char> {
    match path::file_name_of(abs_path) {
        Some(name) => name,
        None => "Home"@,
    }
}

/// The listing of the folder `rel`.
pub open spec fn album(
    rel: Seq<char>,
    abs_path: Seq<char>,
    subfolders: Seq<Seq<char>>,
    media: Seq<Seq<char>>,
    rows: Map<Seq<char>, PhotoMeta>,
    facts: Seq<Facts>,
) -> Album {
    Album {
        path: rel,
        name: folder_name(abs_path),
        breadcrumbs: crumbs(rel),
        folders: Seq::new(subfolders.len(), |i: int| folder_entry(subfolders[i], facts[i])),
        photos: Seq::new(
            media.len(),
            |i: int| photo_entry(media[i], row_of(rows, entry::child_path(rel, media[i]))),
        ),
    }
}

/// The breadcrumbs of a path.
pub fn build_breadcrumbs(rel_path: &str) -> (r: Vec<Breadcrumb>)
    ensures
        r@.map_values(|c: Breadcrumb| c@) == crumbs(rel_path@),
{
    let ghost view = |c: Breadcrumb| c@;
    let mut out: Vec<Breadcrumb> = Vec::new();
    out.push(Breadcrumb { name: "Home".to_owned(), path: String::new() });
    let ghost home = seq![Crumb { name: "Home"@, path: Seq::<char>::empty() }];
    proof {
        assert(out@[0]@.path =~= Seq::<char>::empty());
        assert(out@.map_values(view) =~= home);
    }
    if rel_path.is_empty() {
        return out;
    }
    let parts = text::split_chars(&text::to_chars(rel_path), '/');
    let ghost pieces = path::segments(rel_path@);
    let mut accum: String = String::new();
    let mut i: usize = 0;
    proof {
        assert(text::views(parts@) == pieces);
        assert(pieces.take(0) =~= Seq::<Seq<char>>::empty());
        assert(accum@ =~= Seq::<char>::empty());
    }
    while i < parts.len()
        invariant
            i <= parts@.len(),
            text::views(parts@) == pieces,
            accum@ == text::join(pieces.take(i as int), '/'),
            view == (|c: Breadcrumb| c@),
            out@.map_values(view) == home + Seq::new(i as nat, |j: int| crumb_at(pieces, j)),
        decreases parts.len() - i,
    {
        let ghost before = out@;
        let name = text::from_chars(&parts[i]);
        proof {
            assert(text::views(parts@)[i as int] == parts@[i as int]@);
            assert(pieces.take(i + 1).drop_last() =~= pieces.take(i as int));
        }
        let ghost was = accum@;
        if i > 0 {
            accum.push('/');
        }
        accum.append(&name);
        proof {
            assert(accum@ =~= text::join(pieces.take(i + 1), '/'));
        }
        out.push(Breadcrumb { name, path: accum.clone() });
        proof {
            assert(out@.map_values(view) =~= before.map_values(view).push(crumb_at(pieces, i as int)));
            assert(out@.map_values(view) =~= home + Seq::new(
                (i + 1) as nat,
                |j: int| crumb_at(pieces, j),
            ));
        }
        i = i + 1;
    }
    proof {
        assert(text::views(parts@).len() == parts@.len());
    }
    out
}

/// Orders what the folder `rel_path` holds, and splits it into subfolders and
/// media. A link to a directory is offered as neither, and a link whose target
/// is gone is not offered as a photo.
pub fn plan_listing(rel_path: &str, entries: Vec<DirEntry>) -> (r: ListingPlan)
    ensures
        text::string_views(r.subfolders@) == subfolders_in(
            rel_path@,
            entry::entry_views(entries@),
        ),
        text::string_views(r.media@) == media_in(entry::entry_views(entries@)),
        text::string_views(r.photo_paths@) == text::string_views(r.media@).map_values(
            |name: Seq<char>| entry::child_path(rel_path@, name),
        ),
        text::string_views(r.photo_paths@) == media_paths(
            rel_path@,
            text::string_views(r.media@),
        ),
{
    let sorted = entry::sort_by_name(entries);
    let ghost all = entry::entry_views(sorted@);
    let ghost is_sub = |e: EntryView| entry::is_subfolder(e);
    let ghost sub_path = |e: EntryView| entry::child_path(rel_path@, e.name);
    let ghost is_media = |e: EntryView| entry::is_shown_media(e);
    let ghost media_name = |e: EntryView| e.name;
    let ghost place = |name: Seq<char>| entry::child_path(rel_path@, name);
    let mut subfolders: Vec<String> = Vec::new();
    let mut media: Vec<String> = Vec::new();
    let mut photo_paths: Vec<String> = Vec::new();
    let mut i: usize = 0;
    proof {
        reveal(Seq::filter);
        assert(all.take(0).filter(is_sub).map_values(sub_path) =~= text::string_views(subfolders@));
        assert(all.take(0).filter(is_media).map_values(media_name) =~= text::string_views(media@));
        assert(text::string_views(media@).map_values(place) =~= text::string_views(photo_paths@));
    }
    while i < sorted.len()
        invariant
            i <= sorted@.len(),
            all == entry::entry_views(sorted@),
            is_sub == (|e: EntryView| entry::is_subfolder(e)),
            sub_path == (|e: EntryView| entry::child_path(rel_path@, e.name)),
            is_media == (|e: EntryView| entry::is_shown_media(e)),
            media_name == (|e: EntryView| e.name),
            place == (|name: Seq<char>| entry::child_path(rel_path@, name)),
            text::string_views(subfolders@) == all.take(i as int).filter(is_sub).map_values(
                sub_path,
            ),
            text::string_views(media@) == all.take(i as int).filter(is_media).map_values(
                media_name,
            ),
            text::string_views(photo_paths@) == text::string_views(media@).map_values(place),
        decreases sorted.len() - i,
    {
        let e = &sorted[i];
        let ghost subs = subfolders@;
        let ghost names = media@;
        let ghost paths = photo_paths@;
        proof {
            reveal(Seq::filter);
            assert(all.take(i + 1).drop_last() =~= all.take(i as int));
            assert(all.take(i + 1).last() == e@);
            let kept_subs = all.take(i as int).filter(is_sub);
            let kept_media = all.take(i as int).filter(is_media);
            assert(kept_subs.push(e@).map_values(sub_path) =~= kept_subs.map_values(sub_path).push(
                sub_path(e@),
            ));
            assert(kept_media.push(e@).map_values(media_name) =~= kept_media.map_values(
                media_name,
            ).push(e.name@));
        }
        if entry::is_searchable_dir(e) {
            let sub = entry::child_of(rel_path, &e.name);
            subfolders.push(sub);
            proof {
                assert(text::string_views(subfolders@) =~= text::string_views(subs).push(sub@));
            }
        } else if entry::shown_media(e) {
            let photo = entry::child_of(rel_path, &e.name);
            media.push(e.name.clone());
            photo_paths.push(photo);
            proof {
                assert(text::string_views(media@) =~= text::string_views(names).push(e.name@));
                assert(text::string_views(photo_paths@) =~= text::string_views(paths).push(photo@));
                assert(text::string_views(media@).map_values(place) =~= text::string_views(
                    names,
                ).map_values(place).push(place(e.name@)));
            }
        }
        i = i + 1;
    }
    proof {
        assert(all.take(i as int) =~= all);
    }
    ListingPlan { subfolders, media, photo_paths }
}

/// The thumbnail of the cover stored for a subfolder, while its image exists.
/// Where there is none the computed cover is wanted.
pub fn explicit_cover(sub_path: &str, stored: &Option<String>, stored_exists: bool) -> (r: Option<
    String,
>)
    ensures
        util::opt_view(r) == explicit(sub_path@, util::opt_view(*stored), stored_exists),
{
    match stored {
        Some(image) => {
            if stored_exists {
                search::compute_cover_thumb(sub_path, image)
            } else {
                None
            }
        },
        None => None,
    }
}

/// The listing of a subfolder.
pub fn folder_item(sub_path: &str, facts: &FolderFacts) -> (r: FolderItem)
    ensures
        r@ == folder_entry(sub_path@, facts@),
{
    let cover = match explicit_cover(sub_path, &facts.stored, facts.stored_exists) {
        Some(thumb) => Some(thumb),
        None => match &facts.computed {
            Some(computed) => Some(computed.clone()),
            None => None,
        },
    };
    let parts = text::split_chars(&text::to_chars(sub_path), '/');
    proof {
        text::lemma_split_pieces(sub_path@, '/');
        assert(text::views(parts@).len() == parts@.len());
        assert(text::views(parts@).last() == parts@.last()@);
    }
    let name = text::from_chars(&parts[parts.len() - 1]);
    FolderItem {
        name,
        path: sub_path.to_owned(),
        cover,
        count_photos: facts.counts.0,
        count_albums: facts.counts.1,
    }
}

/// The listing of a photo or video. Without a metadata row its dimensions are
/// zero.
pub fn photo_item(name: &str, meta: Option<PhotoMeta>) -> (r: PhotoItem)
    ensures
        r@ == photo_entry(name@, meta),
{
    let (width, height, duration) = match meta {
        Some(m) => (m.width, m.height, m.duration),
        None => (0, 0, None),
    };
    let mut thumb: String = "thumbs/".to_owned();
    thumb.append(&util::thumb_name(name));
    let duration = match duration {
        Some(secs) => {
            if secs > 0 && util::is_video_file(name) {
                Some(secs)
            } else {
                None
            }
        },
        None => None,
    };
    PhotoItem {
        name: name.to_owned(),
        media_type: util::media_type(name).to_owned(),
        thumb,
        width,
        height,
        duration,
    }
}

fn index_rows(rows: &Vec<(String, PhotoMeta)>) -> (r: StringHashMap<PhotoMeta>)
    ensures
        r@ == row_map(rows@),
{
    let mut map: StringHashMap<PhotoMeta> = StringHashMap::new();
    let mut i: usize = 0;
    proof {
        assert(rows@.take(0) =~= Seq::<(String, PhotoMeta)>::empty());
    }
    while i < rows.len()
        invariant
            i <= rows@.len(),
            map@ == row_map(rows@.take(i as int)),
        decreases rows.len() - i,
    {
        proof {
            assert(rows@.take(i + 1).drop_last() =~= rows@.take(i as int));
        }
        map.insert(rows[i].0.clone(), rows[i].1);
        i = i + 1;
    }
    proof {
        assert(rows@.take(i as int) =~= rows@);
    }
    map
}

/// Puts the listing of the folder `rel_path` together: the plan of the folder,
/// the metadata rows of its photos, and what was found out about each subfolder.
pub fn build_album_response(
    rel_path: &str,
    abs_path: &str,
    plan: &ListingPlan,
    metadata: &Vec<(String, PhotoMeta)>,
    facts: &Vec<FolderFacts>,
) -> (r: AlbumResponse)
    requires
        facts@.len() == plan.subfolders@.len(),
    ensures
        r@ == album(
            rel_path@,
            abs_path@,
            text::string_views(plan.subfolders@),
            text::string_views(plan.media@),
            row_map(metadata@),
            facts@.map_values(|f: FolderFacts| f@),
        ),
{
    let name = match path::file_name(abs_path) {
        Some(name) => name,
        None => "Home".to_owned(),
    };
    let breadcrumbs = build_breadcrumbs(rel_path);
    let rows = index_rows(metadata);
    let ghost subs = text::string_views(plan.subfolders@);
    let ghost names = text::string_views(plan.media@);
    let ghost fs = facts@.map_values(|f: FolderFacts| f@);

    let mut folders: Vec<FolderItem> = Vec::new();
    let mut i: usize = 0;
    while i < plan.subfolders.len()
        invariant
            i <= plan.subfolders@.len() == facts@.len(),
            subs == text::string_views(plan.subfolders@),
            fs == facts@.map_values(|f: FolderFacts| f@),
            folders@.len() == i,
            forall|j: int|
                0 <= j < i ==> (#[trigger] folders@[j])@ == folder_entry(subs[j], fs[j]),
        decreases plan.subfolders.len() - i,
    {
        folders.push(folder_item(&plan.subfolders[i], &facts[i]));
        i = i + 1;
    }

    let mut photos: Vec<PhotoItem> = Vec::new();
    let mut i: usize = 0;
    while i < plan.media.len()
        invariant
            i <= plan.media@.len(),
            names == text::string_views(plan.media@),
            rows@ == row_map(metadata@),
            photos@.len() == i,
            forall|j: int|
                0 <= j < i ==> (#[trigger] photos@[j])@ == photo_entry(
                    names[j],
                    row_of(rows@, entry::child_path(rel_path@, names[j])),
                ),
        decreases plan.media.len() - i,
    {
        let photo_path = entry::child_of(rel_path, &plan.media[i]);
        let meta = match rows.get(&photo_path) {
            Some(m) => Some(*m),
            None => None,
        };
        photos.push(photo_item(&plan.media[i], meta));
        i = i + 1;
    }

    let r = AlbumResponse { path: rel_path.to_owned(), name, breadcrumbs, folders, photos };
    proof {
        let want = album(rel_path@, abs_path@, subs, names, row_map(metadata@), fs);
        assert(r@.folders =~= want.folders);
        assert(r@.photos =~= want.photos);
    }
    r
}

/// Breadcrumbs start at the album root and end at the folder itself, with one
/// step for each segment of its path.
pub proof fn law_breadcrumbs_lead_to_the_folder(rel: Seq<char>)
    ensures
        crumbs(rel)[0].path.len() == 0,
        crumbs(rel).last().path == rel,
        rel.len() > 0 ==> crumbs(rel).len() == path::segments(rel).len() + 1,
        rel.len() == 0 ==> crumbs(rel).len() == 1,
{
    if rel.len() == 0 {
        assert(rel =~= Seq::<char>::empty());
    } else {
        let parts = path::segments(rel);
        text::lemma_split_pieces(rel, '/');
        text::lemma_join_split(rel, '/');
        assert(parts.take(parts.len() as int) =~= parts);
    }
}

/// A canonical path has no empty breadcrumb.
pub proof fn law_no_breadcrumb_is_empty(rel: Seq<char>, i: int)
    requires
        util::is_canonical(rel),
        0 <= i < crumbs(rel).len(),
    ensures
        crumbs(rel)[i].name.len() > 0,
{
    reveal_strlit("Home");
    if i > 0 {
        util::lemma_canonical_segments(rel);
        assert(crumbs(rel)[i] == crumb_at(path::segments(rel), i - 1));
    }
}

/// Whether `p` is the album path of a subfolder among `entries`.
pub open spec fn is_folder_at(rel: Seq<char>, entries: Seq<EntryView>, p: Seq<char>) -> bool {
    exists|e: EntryView| #[trigger]
        entries.contains(e) && entry::is_subfolder(e) && entry::child_path(rel, e.name) == p
}

/// Whether `name` is that of a usable photo or video among `entries`.
pub open spec fn is_media_called(entries: Seq<EntryView>, name: Seq<char>) -> bool {
    exists|e: EntryView| #[trigger]
        entries.contains(e) && entry::is_shown_media(e) && e.name == name
}

/// The folders listed are exactly the real subfolders that are not passed over.
pub proof fn law_every_subfolder_is_listed(rel: Seq<char>, entries: Seq<EntryView>, p: Seq<char>)
    ensures
        subfolders_in(rel, entries).contains(p) <==> is_folder_at(rel, entries, p),
{
    let keep = |e: EntryView| entry::is_subfolder(e);
    let kept = entry::by_name(entries).filter(keep);
    let all = subfolders_in(rel, entries);
    if all.contains(p) {
        let i = choose|i: int| 0 <= i < all.len() && all[i] == p;
        let e = kept[i];
        lemma_kept(entries, keep, e);
        assert(kept.contains(e));
        assert(entries.contains(e));
    }
    if is_folder_at(rel, entries, p) {
        let e = choose|e: EntryView| #[trigger]
            entries.contains(e) && entry::is_subfolder(e) && entry::child_path(rel, e.name) == p;
        lemma_kept(entries, keep, e);
        let i = choose|i: int| 0 <= i < kept.len() && kept[i] == e;
        assert(all[i] == p);
    }
}

/// The photos listed are exactly the usable ones that are not passed over.
pub proof fn law_every_usable_photo_is_listed(entries: Seq<EntryView>, name: Seq<char>)
    ensures
        media_in(entries).contains(name) <==> is_media_called(entries, name),
{
    let keep = |e: EntryView| entry::is_shown_media(e);
    let kept = entry::by_name(entries).filter(keep);
    let all = media_in(entries);
    if all.contains(name) {
        let i = choose|i: int| 0 <= i < all.len() && all[i] == name;
        let e = kept[i];
        lemma_kept(entries, keep, e);
        assert(kept.contains(e));
        assert(entries.contains(e));
    }
    if is_media_called(entries, name) {
        let e = choose|e: EntryView| #[trigger]
            entries.contains(e) && entry::is_shown_media(e) && e.name == name;
        lemma_kept(entries, keep, e);
        let i = choose|i: int| 0 <= i < kept.len() && kept[i] == e;
        assert(all[i] == name);
    }
}

proof fn lemma_kept(entries: Seq<EntryView>, keep: spec_fn(EntryView) -> bool, e: EntryView)
    ensures
        entry::by_name(entries).filter(keep).contains(e) <==> entries.contains(e) && keep(e),
{
    broadcast use vstd::seq_lib::group_filter_ensures;

    let ordered = entry::by_name(entries);
    entry::law_ordering_by_name(entries);
    ordered.to_multiset_ensures();
    entries.to_multiset_ensures();
    assert(ordered.contains(e) <==> ordered.to_multiset().count(e) > 0);
    assert(entries.contains(e) <==> entries.to_multiset().count(e) > 0);
    if ordered.filter(keep).contains(e) {
        ordered.lemma_filter_contains_rev(keep, e);
        let i = choose|i: int| 0 <= i < ordered.filter(keep).len() && ordered.filter(keep)[i] == e;
        assert(keep(ordered.filter(keep)[i]));
    }
}

/// Leaving entries out of an ordered listing leaves it ordered.
proof fn lemma_filter_is_ordered(entries: Seq<EntryView>, keep: spec_fn(EntryView) -> bool)
    requires
        entry::is_ordered(entries),
    ensures
        entry::is_ordered(entries.filter(keep)),
    decreases entries.len(),
{
    reveal(Seq::filter);
    if entries.len() > 0 {
        let front = entries.drop_last();
        let kept = front.filter(keep);
        let all = entries.filter(keep);
        assert forall|i: int, j: int| 0 <= i < j < front.len() implies text::text_le(
            (#[trigger] front[i]).name,
            (#[trigger] front[j]).name,
        ) by {
            assert(text::text_le(entries[i].name, entries[j].name));
        }
        lemma_filter_is_ordered(front, keep);
        if keep(entries.last()) {
            assert forall|i: int, j: int| 0 <= i < j < all.len() implies text::text_le(
                (#[trigger] all[i]).name,
                (#[trigger] all[j]).name,
            ) by {
                assert(all[i] == kept[i]);
                if j < kept.len() {
                    assert(all[j] == kept[j]);
                } else {
                    assert(kept.contains(kept[i]));
                    front.lemma_filter_contains_rev(keep, kept[i]);
                    let k = choose|k: int| 0 <= k < front.len() && front[k] == kept[i];
                    assert(text::text_le(
                        entries[k].name,
                        entries[entries.len() - 1].name,
                    ));
                }
            }
        }
    }
}

/// Folders and photos are listed in name order, so renaming them is all it takes
/// to arrange them.
pub proof fn law_listings_are_in_name_order(
    rel: Seq<char>,
    entries: Seq<EntryView>,
    i: int,
    j: int,
)
    ensures
        0 <= i < j < media_in(entries).len() ==> text::text_le(
            media_in(entries)[i],
            media_in(entries)[j],
        ),
        0 <= i < j < subfolders_in(rel, entries).len() ==> text::text_le(
            subfolders_in(rel, entries)[i],
            subfolders_in(rel, entries)[j],
        ),
{
    let ordered = entry::by_name(entries);
    let is_media = |e: EntryView| entry::is_shown_media(e);
    let is_sub = |e: EntryView| entry::is_subfolder(e);
    entry::law_ordering_by_name(entries);
    lemma_filter_is_ordered(ordered, is_media);
    lemma_filter_is_ordered(ordered, is_sub);
    if 0 <= i < j < media_in(entries).len() {
        let kept = ordered.filter(is_media);
        assert(text::text_le(kept[i].name, kept[j].name));
    }
    if 0 <= i < j < subfolders_in(rel, entries).len() {
        let kept = ordered.filter(is_sub);
        assert(text::text_le(kept[i].name, kept[j].name));
        if rel.len() > 0 {
            text::lemma_text_le_prefix(rel + "/"@, kept[i].name, kept[j].name);
        }
    }
}

/// A cover chosen explicitly wins over the computed one as long as its image
/// exists.
pub proof fn law_an_explicit_cover_wins(sub_path: Seq<char>, facts: Facts)
    ensures
        facts.stored is Some && facts.stored_exists && search::cover_thumb(
            sub_path,
            facts.stored->0,
        ) is Some ==> cover_of(sub_path, facts) == search::cover_thumb(sub_path, facts.stored->0),
        facts.stored is None || !facts.stored_exists ==> cover_of(sub_path, facts)
            == facts.computed,
{
}

/// A photo is listed under its name, with its thumbnail and with what its metadata
/// row says. The row is the one stored under the album path of the photo: the path
/// of the folder, a separator and the name, or the name alone in the album root.
/// Without that row nothing is known of it, whatever other rows there are.
pub proof fn law_a_photo_is_listed_with_its_own_row(
    rel: Seq<char>,
    abs_path: Seq<char>,
    subfolders: Seq<Seq<char>>,
    media: Seq<Seq<char>>,
    rows: Map<Seq<char>, PhotoMeta>,
    facts: Seq<Facts>,
    i: int,
)
    requires
        0 <= i < media.len(),
    ensures
        ({
            let listed = album(rel, abs_path, subfolders, media, rows, facts);
            let photo = listed.photos[i];
            let path = if rel.len() == 0 {
                media[i]
            } else {
                rel + "/"@ + media[i]
            };
            &&& listed.photos.len() == media.len()
            &&& photo.name == media[i]
            &&& photo.thumb == "thumbs/"@ + util::thumb_name_of(media[i])
            &&& photo.media_type == "video"@ <==> util::video_name(media[i])
            &&& photo.media_type == "image"@ <==> !util::video_name(media[i])
            &&& rows.contains_key(path) ==> photo.width == rows[path].width && photo.height
                == rows[path].height
            &&& !rows.contains_key(path) ==> photo.width == 0 && photo.height == 0
            &&& photo.duration is Some <==> rows.contains_key(path) && util::video_name(media[i])
                && rows[path].duration is Some && rows[path].duration->0 > 0
            &&& photo.duration is Some ==> photo.duration == rows[path].duration
        }),
{
    reveal_strlit("video");
    reveal_strlit("image");
    assert("video"@[0] != "image"@[0]);
}

/// A listing looks up its photos by the paths it was planned with: what the plan
/// gives as the path of a photo is where its row is read.
pub proof fn law_rows_are_read_where_they_were_planned(
    rel: Seq<char>,
    abs_path: Seq<char>,
    subfolders: Seq<Seq<char>>,
    media: Seq<Seq<char>>,
    rows: Map<Seq<char>, PhotoMeta>,
    facts: Seq<Facts>,
    i: int,
)
    requires
        0 <= i < media.len(),
    ensures
        ({
            let photo = album(rel, abs_path, subfolders, media, rows, facts).photos[i];
            let photo_paths = media_paths(rel, media);
            &&& photo_paths.len() == media.len()
            &&& photo_paths[i] == if rel.len() == 0 {
                media[i]
            } else {
                rel + "/"@ + media[i]
            }
            &&& rows.contains_key(photo_paths[i]) ==> photo.width == rows[photo_paths[i]].width
                && photo.height == rows[photo_paths[i]].height
        }),
{
}

/// Of several rows for one photo the last counts, and rows of other photos do not
/// matter.
pub proof fn law_the_last_row_counts(
    rows: Seq<(String, PhotoMeta)>,
    row: (String, PhotoMeta),
    other: Seq<char>,
)
    ensures
        row_map(rows.push(row)).contains_key(row.0@),
        row_map(rows.push(row))[row.0@] == row.1,
        other != row.0@ ==> row_map(rows.push(row)).contains_key(other) == row_map(
            rows,
        ).contains_key(other) && row_map(rows.push(row))[other] == row_map(rows)[other],
        !row_map(Seq::empty()).contains_key(other),
{
    assert(rows.push(row).drop_last() =~= rows);
}

/// A subfolder is listed under its own name and path, with the counts found for it,
/// and with its cover: the thumbnail of the stored image while that exists and has
/// one, and else the computed cover.
pub proof fn law_a_subfolder_is_listed_with_its_facts(
    rel: Seq<char>,
    abs_path: Seq<char>,
    subfolders: Seq<Seq<char>>,
    media: Seq<Seq<char>>,
    rows: Map<Seq<char>, PhotoMeta>,
    facts: Seq<Facts>,
    name: Seq<char>,
    i: int,
)
    requires
        0 <= i < subfolders.len() == facts.len(),
    ensures
        ({
            let listed = album(rel, abs_path, subfolders, media, rows, facts);
            let folder = listed.folders[i];
            let stored = facts[i].stored_exists && facts[i].stored is Some && search::cover_thumb(
                subfolders[i],
                facts[i].stored->0,
            ) is Some;
            &&& listed.folders.len() == subfolders.len()
            &&& folder.path == subfolders[i]
            &&& subfolders[i] == name && !name.contains('/') ==> folder.name == name
            &&& subfolders[i] == rel + "/"@ + name && !name.contains('/') ==> folder.name == name
            &&& folder.count_photos == facts[i].counts.0
            &&& folder.count_albums == facts[i].counts.1
            &&& folder.cover == if stored {
                search::cover_thumb(subfolders[i], facts[i].stored->0)
            } else {
                facts[i].computed
            }
        }),
{
    reveal_strlit("/");
    if !name.contains('/') {
        text::lemma_split_plain(name, '/');
        assert(seq![name].last() == name);
        assert(rel + "/"@ + name =~= rel.push('/') + name);
        text::lemma_split_append(rel, name, '/');
        assert((path::segments(rel) + seq![name]).last() == name);
    }
}

/// A listing is headed by the path asked for and the name of the folder on disk.
pub proof fn law_a_listing_is_headed_by_its_folder(
    rel: Seq<char>,
    dir: Seq<char>,
    name: Seq<char>,
    subfolders: Seq<Seq<char>>,
    media: Seq<Seq<char>>,
    rows: Map<Seq<char>, PhotoMeta>,
    facts: Seq<Facts>,
)
    requires
        !name.contains('/'),
        path::is_plain(name),
        name != path::dot_dot(),
    ensures
        ({
            let listed = album(rel, dir + "/"@ + name, subfolders, media, rows, facts);
            &&& listed.path == rel
            &&& listed.name == name
            &&& listed.breadcrumbs == crumbs(rel)
        }),
        album(rel, "/"@, subfolders, media, rows, facts).name == "Home"@,
{
    reveal_strlit("/");
    path::lemma_last_name(dir, name);
    let nothing = Seq::<char>::empty();
    assert("/"@ =~= nothing.push('/') + nothing);
    text::lemma_split_append(nothing, nothing, '/');
    text::lemma_split_plain(nothing, '/');
    let parts = seq![nothing] + seq![nothing];
    assert(path::segments("/"@) == parts);
    assert(parts.drop_first() =~= seq![nothing]);
    assert(seq![nothing].drop_last() =~= Seq::<Seq<char>>::empty());
    assert(path::trim_tail(seq![nothing]) =~= Seq::<Seq<char>>::empty()) by {
        reveal_with_fuel(path::trim_tail, 2);
        assert(seq![nothing].last() == nothing);
    }
    assert(path::body(parts) =~= seq![nothing]);
}

/// Each breadcrumb leads one step further than the one before it, and is called by
/// the name of that step.
pub proof fn law_breadcrumbs_go_step_by_step(rel: Seq<char>, i: int)
    requires
        util::is_canonical(rel),
        0 < i < crumbs(rel).len(),
    ensures
        crumbs(rel)[0] == (Crumb { name: "Home"@, path: Seq::empty() }),
        crumbs(rel)[i].name == path::segments(rel)[i - 1],
        crumbs(rel)[i].path == if i == 1 {
            crumbs(rel)[i].name
        } else {
            crumbs(rel)[i - 1].path + "/"@ + crumbs(rel)[i].name
        },
{
    reveal_strlit("/");
    let parts = path::segments(rel);
    assert(crumbs(rel)[i] == crumb_at(parts, i - 1));
    assert(parts.take(i).drop_last() =~= parts.take(i - 1));
    assert(parts.take(i).last() == parts[i - 1]);
    if i > 1 {
        assert(crumbs(rel)[i - 1] == crumb_at(parts, i - 2));
        let before = text::join(parts.take(i - 1), '/');
        assert(before.push('/') + parts[i - 1] =~= before + "/"@ + parts[i - 1]);
    }
}

} // verus!
