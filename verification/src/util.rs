//! Album paths and media names.

use crate::path;
use crate::text;
use vstd::prelude::*;

verus! {

/// Why a client-supplied path could not be resolved to an album path.
///
/// A path that is malformed or escapes the album is the client's mistake, while
/// a well-formed path at which nothing exists is a missing resource.
#[derive(Debug, Clone, Copy, PartialEq, Eq, Structural)]
pub enum PathError {
    /// Traversal, an absolute path, a drive prefix, or a path that resolves
    /// outside the album root (for example through a symlink).
    Rejected,
    /// The path is acceptable but nothing exists at it.
    NotFound,
}

/// Whether a path begins with a drive letter and a colon.
pub open spec fn has_drive_prefix(p: Seq<char>) -> bool {
    p.len() >= 2 && p[1] == ':' && ('A' <= p[0] <= 'Z' || 'a' <= p[0] <= 'z')
}

/// The segments of `p` that name something.
pub open spec fn named_segments(p: Seq<char>) -> Seq<Seq<char>> {
    path::segments(p).filter(|x: Seq<char>| path::is_plain(x))
}

/// The canonical form of an album-relative path: the segments that name
/// something, with one `/` between them. A path that holds a `.` and names
/// nothing else is `.`.
pub open spec fn normalized(p: Seq<char>) -> Seq<char> {
    let names = named_segments(p);
    if names.len() > 0 {
        text::join(names, '/')
    } else if path::segments(p).contains(path::dot()) {
        path::dot()
    } else {
        Seq::<char>::empty()
    }
}

/// Whether a client path could address a location outside the album: it is
/// rooted, has a `..` segment, or its canonical form begins with a drive.
pub open spec fn could_escape(p: Seq<char>) -> bool {
    ||| p.len() > 0 && p[0] == '/'
    ||| path::segments(p).contains(path::dot_dot())
    ||| has_drive_prefix(normalized(p))
}

/// What a client path means: nothing when it could escape, else its canonical
/// form.
pub open spec fn validated(p: Seq<char>) -> Option<Seq<char>> {
    if could_escape(p) {
        None
    } else {
        Some(normalized(p))
    }
}

/// Whether the folder `parent` is `child` or holds it, directly or further
/// down. The empty path is the album root.
pub open spec fn ancestor(parent: Seq<char>, child: Seq<char>) -> bool {
    let p = text::trim_end_of(parent, '/');
    let c = text::trim_end_of(child, '/');
    ||| parent.len() == 0
    ||| p == c
    ||| p.is_prefix_of(c) && c[p.len() as int] == '/'
}

/// The part of a name after its last dot, in lowercase. A name without a dot
/// counts as its own extension.
pub open spec fn extension_key(name: Seq<char>) -> Seq<char> {
    text::lowercase(text::split(name, '.').last())
}

/// The extensions of images.
pub open spec fn image_extension(ext: Seq<char>) -> bool {
    ext == "jpg"@ || ext == "jpeg"@ || ext == "png"@ || ext == "webp"@
}

/// The extensions of videos.
pub open spec fn video_extension(ext: Seq<char>) -> bool {
    ext == "mp4"@ || ext == "mov"@ || ext == "avi"@ || ext == "webm"@ || ext == "mkv"@
}

/// Whether a name is that of an image.
pub open spec fn image_name(name: Seq<char>) -> bool {
    image_extension(extension_key(name))
}

/// Whether a name is that of a video.
pub open spec fn video_name(name: Seq<char>) -> bool {
    video_extension(extension_key(name))
}

/// Whether a name is that of an image or a video.
pub open spec fn media_name(name: Seq<char>) -> bool {
    image_name(name) || video_name(name)
}

/// The stem of the last component of `name`, or nothing when that is no name.
pub open spec fn stem_of(name: Seq<char>) -> Seq<char> {
    match path::file_name_of(name) {
        Some(file) => path::stem_and_extension(file).0,
        None => Seq::<char>::empty(),
    }
}

/// The extension of the last component of `name`, empty when it has none.
pub open spec fn extension_of(name: Seq<char>) -> Seq<char> {
    match path::file_name_of(name) {
        Some(file) => match path::stem_and_extension(file).1 {
            Some(ext) => ext,
            None => Seq::<char>::empty(),
        },
        None => Seq::<char>::empty(),
    }
}

/// The thumbnail name of a media name: a video's is a JPEG, an image keeps its
/// extension in lowercase.
pub open spec fn thumb_name_of(name: Seq<char>) -> Seq<char> {
    if video_name(name) {
        stem_of(name) + "_thumb.jpg"@
    } else {
        stem_of(name) + "_thumb."@ + text::lowercase(extension_of(name))
    }
}

/// The extension of the thumbnail of a media name.
pub open spec fn thumb_extension_of(name: Seq<char>) -> Seq<char> {
    if video_name(name) {
        "jpg"@
    } else {
        text::lowercase(extension_of(name))
    }
}

/// The canonical form of an album-relative path: empty and `.` segments are
/// dropped, so that `a/`, `a//` and `./a` are all `a`.
pub fn normalize_rel_path(input: &str) -> (r: String)
    ensures
        r@ == normalized(input@),
{
    let chars = text::to_chars(input);
    let parts = text::split_chars(&chars, '/');
    let ghost all = path::segments(input@);
    let ghost is_named = |x: Seq<char>| path::is_plain(x);
    let mut names: Vec<Vec<char>> = Vec::new();
    let mut has_dot: bool = false;
    let mut i: usize = 0;
    proof {
        reveal(Seq::filter);
        assert(all.take(0).filter(is_named) =~= Seq::<Seq<char>>::empty());
        assert(text::views(names@) =~= Seq::<Seq<char>>::empty());
    }
    while i < parts.len()
        invariant
            i <= parts@.len(),
            all == text::views(parts@),
            is_named == (|x: Seq<char>| path::is_plain(x)),
            text::views(names@) == all.take(i as int).filter(is_named),
            has_dot == exists|j: int| 0 <= j < i && all[j] == path::dot(),
        decreases parts.len() - i,
    {
        let ghost before = names@;
        let part = &parts[i];
        proof {
            reveal(Seq::filter);
            assert(all.take(i + 1).drop_last() =~= all.take(i as int));
            assert(all.take(i + 1).last() == part@);
            assert(all[i as int] == part@);
        }
        if path::plain(part) {
            let piece = text::copy_range(part, 0, part.len());
            proof {
                assert(piece@ =~= part@);
            }
            names.push(piece);
            proof {
                assert(text::views(names@) =~= text::views(before).push(part@));
            }
        } else if part.len() > 0 {
            has_dot = true;
        }
        i = i + 1;
    }
    proof {
        assert(all.take(i as int) =~= all);
        assert(text::views(names@).len() == names@.len());
        assert(has_dot == all.contains(path::dot()));
    }
    if names.len() > 0 {
        text::from_chars(&text::join_chars(&names, '/'))
    } else if has_dot {
        let mut out: String = String::new();
        out.push('.');
        proof {
            assert(out@ =~= path::dot());
        }
        out
    } else {
        String::new()
    }
}

/// Whether a client path could address a location outside the album.
fn escapes(input: &str) -> (r: bool)
    ensures
        r == could_escape(input@),
{
    let chars = text::to_chars(input);
    if chars.len() > 0 && chars[0] == '/' {
        return true;
    }
    let canonical = text::to_chars(&normalize_rel_path(input));
    if canonical.len() >= 2 && canonical[1] == ':' && (('A' <= canonical[0] && canonical[0] <= 'Z')
        || ('a' <= canonical[0] && canonical[0] <= 'z')) {
        return true;
    }
    let parts = text::split_chars(&chars, '/');
    let ghost all = path::segments(input@);
    let mut i: usize = 0;
    while i < parts.len()
        invariant
            i <= parts@.len(),
            all == text::views(parts@),
            all == path::segments(input@),
            forall|j: int| 0 <= j < i ==> all[j] != path::dot_dot(),
        decreases parts.len() - i,
    {
        proof {
            assert(all[i as int] == parts@[i as int]@);
        }
        if path::names_parent(&parts[i]) {
            return true;
        }
        i = i + 1;
    }
    false
}

/// Validates a relative path supplied by a client, and normalises it.
///
/// Returns `None` for anything that could address a location outside the album
/// root: `..` segments, absolute paths and drive prefixes. The absolute cases
/// matter because joining an absolute path to a base replaces the base.
pub fn validate_path(input: &str) -> (r: Option<String>)
    ensures
        r is Some == validated(input@) is Some,
        r is Some ==> r->0@ == validated(input@)->0,
{
    if escapes(input) {
        None
    } else {
        Some(normalize_rel_path(input))
    }
}

/// The path on disk of the album-relative path `rel`, nothing where it is refused.
pub open spec fn disk_path(root: Seq<char>, rel: Seq<char>) -> Option<Seq<char>> {
    match validated(rel) {
        Some(rel) => Some(path::joined(root, rel)),
        None => None,
    }
}

/// The path to look up on disk for the album-relative path `rel`.
pub fn path_to_resolve(root: &str, rel: &str) -> (r: Result<String, PathError>)
    ensures
        r is Ok == validated(rel@) is Some,
        r is Ok ==> r->Ok_0@ == path::joined(root@, validated(rel@)->0),
        r is Err ==> r->Err_0 == PathError::Rejected,
        match disk_path(root@, rel@) {
            Some(p) => r is Ok && r->Ok_0@ == p,
            None => r is Err,
        },
{
    match validate_path(rel) {
        Some(rel) => Ok(path::join_path(root, &rel)),
        None => Err(PathError::Rejected),
    }
}

/// What looking up an album path comes to, given what the file system resolved
/// the path and the album root to.
pub open spec fn resolved(
    rel: Seq<char>,
    canonical: Option<Seq<char>>,
    canonical_root: Option<Seq<char>>,
) -> Result<Seq<char>, PathError> {
    if validated(rel) is None {
        Err(PathError::Rejected)
    } else if canonical is None || canonical_root is None {
        Err(PathError::NotFound)
    } else if path::is_within(canonical->0, canonical_root->0) {
        Ok(canonical->0)
    } else {
        Err(PathError::Rejected)
    }
}

/// The characters of a text that may be absent.
pub open spec fn opt_view(s: Option<String>) -> Option<Seq<char>> {
    match s {
        Some(s) => Some(s@),
        None => None,
    }
}

/// Resolves `rel` against the album root, keeping why it failed.
///
/// `canonical` is what the file system resolves [`path_to_resolve`] to and
/// `canonical_root` what it resolves the root to; each is absent when there is
/// nothing there. Only validation and a location outside the root count as
/// [`PathError::Rejected`].
pub fn resolve_album_path_checked(
    rel: &str,
    canonical: Option<String>,
    canonical_root: Option<String>,
) -> (r: Result<String, PathError>)
    ensures
        match resolved(rel@, opt_view(canonical), opt_view(canonical_root)) {
            Ok(p) => r is Ok && r->Ok_0@ == p,
            Err(e) => r is Err && r->Err_0 == e,
        },
{
    if escapes(rel) {
        return Err(PathError::Rejected);
    }
    match (canonical, canonical_root) {
        (Some(found), Some(root)) => {
            if path::path_within(&found, &root) {
                Ok(found)
            } else {
                Err(PathError::Rejected)
            }
        },
        _ => Err(PathError::NotFound),
    }
}

/// Resolves `rel` against the album root, without the reason for a failure.
pub fn resolve_album_path(
    rel: &str,
    canonical: Option<String>,
    canonical_root: Option<String>,
) -> (r: Option<String>)
    ensures
        match resolved(rel@, opt_view(canonical), opt_view(canonical_root)) {
            Ok(p) => r is Some && r->0@ == p,
            Err(_) => r is None,
        },
{
    match resolve_album_path_checked(rel, canonical, canonical_root) {
        Ok(p) => Some(p),
        Err(_) => None,
    }
}

/// Whether the folder `parent` is `child` or holds it. Names match on path
/// boundaries only.
pub fn is_ancestor(parent: &str, child: &str) -> (r: bool)
    ensures
        r == ancestor(parent@, child@),
{
    let parent = text::to_chars(parent);
    if parent.len() == 0 {
        return true;
    }
    let child = text::to_chars(child);
    let p = text::trim_end_chars(&parent, '/');
    let c = text::trim_end_chars(&child, '/');
    if !text::starts_with(&c, &p) {
        proof {
            if p@ == c@ {
                assert(p@ =~= c@.subrange(0, p@.len() as int));
            }
        }
        return false;
    }
    if c.len() == p.len() {
        proof {
            assert(c@ =~= p@);
        }
        true
    } else {
        c[p.len()] == '/'
    }
}

/// The part of a name after its last dot, in lowercase.
pub fn lower_extension(name: &str) -> (r: String)
    ensures
        r@ == extension_key(name@),
{
    let chars = text::to_chars(name);
    let pieces = text::split_chars(&chars, '.');
    proof {
        assert(text::views(pieces@).last() == pieces@[pieces@.len() - 1]@);
    }
    text::to_lowercase(&text::from_chars(&pieces[pieces.len() - 1]))
}

/// Whether a lowercase extension is that of an image.
pub fn is_image_extension(ext: &str) -> (r: bool)
    ensures
        r == image_extension(ext@),
{
    text::same_text(ext, "jpg") || text::same_text(ext, "jpeg") || text::same_text(ext, "png")
        || text::same_text(ext, "webp")
}

/// Whether a lowercase extension is that of a video.
pub fn is_video_extension(ext: &str) -> (r: bool)
    ensures
        r == video_extension(ext@),
{
    text::same_text(ext, "mp4") || text::same_text(ext, "mov") || text::same_text(ext, "avi")
        || text::same_text(ext, "webm") || text::same_text(ext, "mkv")
}

/// Whether a name is that of an image or a video.
pub fn is_media_file(name: &str) -> (r: bool)
    ensures
        r == media_name(name@),
{
    let ext = lower_extension(name);
    is_image_extension(&ext) || is_video_extension(&ext)
}

/// Whether a name is that of an image.
pub fn is_image_file(name: &str) -> (r: bool)
    ensures
        r == image_name(name@),
{
    is_image_extension(&lower_extension(name))
}

/// Whether a name is that of a video.
pub fn is_video_file(name: &str) -> (r: bool)
    ensures
        r == video_name(name@),
{
    is_video_extension(&lower_extension(name))
}

/// The stem and the extension of the last component of `name`.
pub fn name_parts(name: &str) -> (r: (String, String))
    ensures
        r.0@ == stem_of(name@),
        r.1@ == extension_of(name@),
{
    let chars = text::to_chars(name);
    match path::file_name_chars(&chars) {
        Some(file) => {
            let (stem, ext) = path::stem_and_extension_chars(&file);
            let ext = match ext {
                Some(ext) => text::from_chars(&ext),
                None => String::new(),
            };
            (text::from_chars(&stem), ext)
        },
        None => (String::new(), String::new()),
    }
}

/// The thumbnail name made of a stem and, for an image, its lowercase
/// extension.
pub fn thumb_name_from(stem: &str, lower_ext: &str, video: bool) -> (r: String)
    ensures
        r@ == if video {
            stem@ + "_thumb.jpg"@
        } else {
            stem@ + "_thumb."@ + lower_ext@
        },
{
    let mut out: String = stem.to_owned();
    if video {
        out.append("_thumb.jpg");
    } else {
        out.append("_thumb.");
        out.append(lower_ext);
    }
    out
}

/// The name of the thumbnail of the media file `name`.
pub fn thumb_name(name: &str) -> (r: String)
    ensures
        r@ == thumb_name_of(name@),
{
    let (stem, ext) = name_parts(name);
    let ext = text::to_lowercase(&ext);
    thumb_name_from(&stem, &ext, is_video_file(name))
}

/// `"video"` or `"image"`.
pub fn media_type(name: &str) -> (r: &'static str)
    ensures
        r@ == media_type_of(name@),
{
    if is_video_file(name) {
        "video"
    } else {
        "image"
    }
}

/// The type a listing gives a media file.
pub open spec fn media_type_of(name: Seq<char>) -> Seq<char> {
    if video_name(name) {
        "video"@
    } else {
        "image"@
    }
}

/// Whether a path is in canonical form and acceptable as it stands.
pub open spec fn is_canonical(p: Seq<char>) -> bool {
    validated(p) == Some(p)
}

/// The named segments of a path hold no `/`, name something, and come out of
/// its segments.
pub proof fn lemma_named_segments(p: Seq<char>)
    ensures
        forall|i: int|
            0 <= i < named_segments(p).len() ==> {
                let x = #[trigger] named_segments(p)[i];
                path::is_plain(x) && !x.contains('/') && path::segments(p).contains(x)
            },
{
    broadcast use vstd::seq_lib::group_filter_ensures;

    let is_named = |x: Seq<char>| path::is_plain(x);
    text::lemma_split_pieces(p, '/');
    assert forall|i: int| 0 <= i < named_segments(p).len() implies {
        let x = #[trigger] named_segments(p)[i];
        path::is_plain(x) && !x.contains('/') && path::segments(p).contains(x)
    } by {
        let x = named_segments(p)[i];
        assert(is_named(x));
        assert(path::segments(p).filter(is_named).contains(x));
        path::segments(p).lemma_filter_contains_rev(is_named, x);
        let k = choose|k: int| 0 <= k < path::segments(p).len() && path::segments(p)[k] == x;
        assert(!path::segments(p)[k].contains('/'));
    }
}

/// Filtering keeps a sequence all of whose elements pass.
proof fn lemma_filter_all<A>(s: Seq<A>, keep: spec_fn(A) -> bool)
    requires
        forall|i: int| 0 <= i < s.len() ==> keep(#[trigger] s[i]),
    ensures
        s.filter(keep) == s,
    decreases s.len(),
{
    reveal(Seq::filter);
    if s.len() > 0 {
        let front = s.drop_last();
        assert forall|i: int| 0 <= i < front.len() implies keep(#[trigger] front[i]) by {
            assert(front[i] == s[i]);
        }
        lemma_filter_all(front, keep);
        assert(keep(s[s.len() - 1]));
        assert(s.drop_last().push(s.last()) =~= s);
    }
}

/// Normalising leaves the named segments as they are, and is settled after one
/// pass.
pub proof fn law_normalizing_is_idempotent(p: Seq<char>)
    ensures
        named_segments(normalized(p)) == named_segments(p),
        normalized(normalized(p)) == normalized(p),
{
    let is_named = |x: Seq<char>| path::is_plain(x);
    let q = normalized(p);
    let names = named_segments(p);
    lemma_named_segments(p);
    reveal(Seq::filter);
    if names.len() > 0 {
        assert forall|i: int| 0 <= i < names.len() implies !#[trigger] names[i].contains('/') by {}
        text::lemma_split_join(names, '/');
        assert forall|i: int| 0 <= i < names.len() implies is_named(#[trigger] names[i]) by {}
        lemma_filter_all(names, is_named);
    } else {
        assert(!q.contains('/'));
        text::lemma_split_plain(q, '/');
        assert(seq![q].drop_last() =~= Seq::<Seq<char>>::empty());
        assert(seq![q].last() == q);
        assert(seq![q].drop_last().filter(is_named) =~= Seq::<Seq<char>>::empty());
        assert(seq![q].filter(is_named) =~= Seq::<Seq<char>>::empty());
        assert(names =~= Seq::<Seq<char>>::empty());
        if q == path::dot() {
            assert(seq![q][0] == path::dot());
        } else {
            assert(q =~= Seq::<char>::empty());
            assert(!seq![q].contains(path::dot())) by {
                if seq![q].contains(path::dot()) {
                    assert(q == path::dot());
                    assert(path::dot().len() == 1);
                }
            }
        }
    }
}

/// Every segment of a canonical path names something, but for the album root and
/// `.` itself.
pub proof fn lemma_canonical_segments(p: Seq<char>)
    requires
        is_canonical(p),
        p.len() > 0,
    ensures
        forall|i: int|
            0 <= i < path::segments(p).len() ==> (#[trigger] path::segments(p)[i]).len() > 0 && (p
                == path::dot() || path::is_plain(path::segments(p)[i])),
{
    let names = named_segments(p);
    lemma_named_segments(p);
    if names.len() > 0 {
        assert forall|i: int| 0 <= i < names.len() implies !#[trigger] names[i].contains('/') by {}
        text::lemma_split_join(names, '/');
        assert(path::segments(p) == names);
        assert forall|i: int| 0 <= i < names.len() implies path::is_plain(#[trigger] names[i]) by {}
    } else {
        assert(p == path::dot());
        assert(!p.contains('/'));
        text::lemma_split_plain(p, '/');
        assert(path::segments(p) == seq![p]);
        assert forall|i: int| 0 <= i < seq![p].len() implies (#[trigger] seq![p][i]).len() > 0 by {
            assert(seq![p][i] == p);
        }
    }
}

/// What validation returns is accepted again, unchanged.
pub proof fn law_validated_paths_are_canonical(p: Seq<char>)
    requires
        validated(p) is Some,
    ensures
        is_canonical(validated(p)->0),
{
    let q = normalized(p);
    let names = named_segments(p);
    law_normalizing_is_idempotent(p);
    lemma_named_segments(p);
    if names.len() > 0 {
        assert forall|i: int| 0 <= i < names.len() implies !#[trigger] names[i].contains('/') by {}
        text::lemma_split_join(names, '/');
        assert(!path::segments(q).contains(path::dot_dot())) by {
            if path::segments(q).contains(path::dot_dot()) {
                let k = choose|k: int| 0 <= k < names.len() && names[k] == path::dot_dot();
                assert(path::segments(p).contains(names[k]));
            }
        }
        lemma_join_first(names, '/');
        assert(path::is_plain(names[0]));
        assert(!names[0].contains('/'));
        assert(q[0] == names[0][0]);
        assert(names[0].contains(names[0][0]));
    } else {
        assert(!q.contains('/'));
        text::lemma_split_plain(q, '/');
        assert(!path::segments(q).contains(path::dot_dot())) by {
            if path::segments(q).contains(path::dot_dot()) {
                assert(q == path::dot_dot());
                assert(path::dot_dot().len() == 2);
            }
        }
    }
}

/// What an album path resolves to is inside the album, links notwithstanding.
pub proof fn law_resolved_paths_are_inside(
    rel: Seq<char>,
    canonical: Option<Seq<char>>,
    canonical_root: Option<Seq<char>>,
)
    ensures
        resolved(rel, canonical, canonical_root) matches Ok(p) ==> {
            &&& canonical == Some(p)
            &&& canonical_root is Some && path::is_within(p, canonical_root->0)
        },
{
}

/// A joined text begins with its first piece.
proof fn lemma_join_first(parts: Seq<Seq<char>>, sep: char)
    requires
        parts.len() > 0,
    ensures
        parts[0].is_prefix_of(text::join(parts, sep)),
    decreases parts.len(),
{
    if parts.len() > 1 {
        lemma_join_first(parts.drop_last(), sep);
        assert(parts.drop_last()[0] == parts[0]);
        let front = text::join(parts.drop_last(), sep);
        let whole = text::join(parts, sep);
        assert(whole.subrange(0, front.len() as int) =~= front);
        assert(parts[0] =~= whole.subrange(0, parts[0].len() as int)) by {
            assert(parts[0] =~= front.subrange(0, parts[0].len() as int));
        }
    } else {
        assert(parts[0] =~= text::join(parts, sep).subrange(0, parts[0].len() as int));
    }
}

/// The components of an unrooted path placed beneath a base are those of the
/// base followed by the named segments of the path.
pub proof fn lemma_components_of_joined(base: Seq<char>, rel: Seq<char>)
    requires
        base.len() > 0,
        !(rel.len() > 0 && rel[0] == '/'),
    ensures
        path::components(path::joined(base, rel)) == path::components(base) + named_segments(rel),
{
    let is_named = |x: Seq<char>| path::is_plain(x);
    let front = if base.last() == '/' {
        base.drop_last()
    } else {
        base
    };
    assert(front.push('/') + rel =~= path::joined(base, rel)) by {
        if base.last() == '/' {
            assert(front.push('/') =~= base);
        }
    }
    text::lemma_split_append(front, rel, '/');
    text::lemma_split_pieces(front, '/');
    text::lemma_split_pieces(rel, '/');
    let a = path::segments(front);
    let b = path::segments(rel);
    assert((a + b).drop_first() =~= a.drop_first() + b);
    Seq::filter_distributes_over_add(a.drop_first(), b, is_named);
    if base.last() == '/' {
        let nothing = Seq::<char>::empty();
        assert(base =~= front.push('/') + nothing);
        text::lemma_split_append(front, nothing, '/');
        assert(path::segments(base) =~= a + seq![nothing]);
        assert((a + seq![nothing]).drop_first() =~= a.drop_first() + seq![nothing]);
        Seq::filter_distributes_over_add(a.drop_first(), seq![nothing], is_named);
        assert(seq![nothing].filter(is_named) =~= Seq::<Seq<char>>::empty()) by {
            reveal(Seq::filter);
            assert(seq![nothing].drop_last() =~= Seq::<Seq<char>>::empty());
            assert(seq![nothing].drop_last().filter(is_named) =~= Seq::<Seq<char>>::empty());
            assert(seq![nothing].last() == nothing);
        }
    } else {
        assert(a[0].len() == 0 ==> a.len() > 1) by {
            if a.len() == 1 {
                text::lemma_join_split(front, '/');
                assert(front == a[0]);
            }
        }
    }
    assert(path::components(path::joined(base, rel)) =~= path::components(base) + named_segments(
        rel,
    ));
}

/// An accepted path, joined to the album root, stays inside the root: nothing
/// beneath the root's own components is `..`.
pub proof fn law_validated_paths_stay_inside(root: Seq<char>, p: Seq<char>)
    requires
        root.len() > 0,
        validated(p) is Some,
    ensures
        ({
            let full = path::joined(root, validated(p)->0);
            let n = path::components(root).len();
            &&& path::is_within(full, root)
            &&& !path::components(full).skip(n as int).contains(path::dot_dot())
        }),
{
    let q = validated(p)->0;
    law_validated_paths_are_canonical(p);
    lemma_components_of_joined(root, q);
    lemma_named_segments(q);
    let full = path::joined(root, q);
    let n = path::components(root).len();
    assert(path::components(full).skip(n as int) =~= named_segments(q));
    if named_segments(q).contains(path::dot_dot()) {
        let k = choose|k: int|
            0 <= k < named_segments(q).len() && named_segments(q)[k] == path::dot_dot();
        assert(path::segments(q).contains(named_segments(q)[k]));
    }
    assert(path::components(root) =~= path::components(full).subrange(0, n as int));
}

/// A canonical path does not end in a separator.
proof fn lemma_canonical_has_no_trailing_slash(p: Seq<char>)
    requires
        is_canonical(p),
    ensures
        text::trim_end_of(p, '/') == p,
{
    let names = named_segments(p);
    lemma_named_segments(p);
    if names.len() > 1 {
        let last = names.last();
        assert(last == names[names.len() - 1]);
        assert(path::is_plain(last) && !last.contains('/'));
        assert(p.last() == last.last());
        assert(last.contains(last[last.len() - 1]));
    } else if names.len() == 1 {
        assert(path::is_plain(names[0]) && !names[0].contains('/'));
        assert(names[0].contains(names[0][names[0].len() - 1]));
    }
}

/// Among canonical paths a folder is an ancestor exactly when it is the album
/// root or its segments begin those of the other path: names match on path
/// boundaries only.
pub proof fn law_ancestors_by_segments(parent: Seq<char>, child: Seq<char>)
    requires
        is_canonical(parent),
        is_canonical(child),
    ensures
        ancestor(parent, child) <==> (parent.len() == 0 || path::segments(parent).is_prefix_of(
            path::segments(child),
        )),
{
    lemma_canonical_has_no_trailing_slash(parent);
    lemma_canonical_has_no_trailing_slash(child);
    let a = path::segments(parent);
    let b = path::segments(child);
    text::lemma_split_pieces(parent, '/');
    text::lemma_split_pieces(child, '/');
    if parent.len() > 0 {
        if parent == child {
            assert(a =~= b.subrange(0, a.len() as int));
        } else if ancestor(parent, child) {
            let rest = child.skip(parent.len() as int + 1);
            assert(parent =~= child.subrange(0, parent.len() as int));
            assert(parent.len() < child.len()) by {
                if parent.len() == child.len() {
                    assert(parent =~= child);
                }
            }
            assert(child =~= parent.push('/') + rest);
            text::lemma_split_append(parent, rest, '/');
            assert(a =~= b.subrange(0, a.len() as int));
        }
        if a.is_prefix_of(b) {
            text::lemma_join_split(parent, '/');
            text::lemma_join_split(child, '/');
            if a.len() == b.len() {
                assert(a =~= b);
            } else {
                let more = b.skip(a.len() as int);
                assert(b =~= a + more);
                text::lemma_join_append(a, more, '/');
                assert(parent =~= child.subrange(0, parent.len() as int));
            }
        }
    }
}

/// On canonical paths being an ancestor is reflexive, antisymmetric and
/// transitive, and the album root is an ancestor of everything.
pub proof fn law_ancestors_are_ordered(a: Seq<char>, b: Seq<char>, c: Seq<char>)
    requires
        is_canonical(a),
        is_canonical(b),
        is_canonical(c),
    ensures
        ancestor(Seq::<char>::empty(), a),
        ancestor(a, a),
        ancestor(a, b) && ancestor(b, a) ==> a == b,
        ancestor(a, b) && ancestor(b, c) ==> ancestor(a, c),
{
    law_ancestors_by_segments(a, b);
    law_ancestors_by_segments(b, a);
    law_ancestors_by_segments(b, c);
    law_ancestors_by_segments(a, c);
    text::lemma_join_split(a, '/');
    text::lemma_join_split(b, '/');
    let x = path::segments(a);
    let y = path::segments(b);
    let z = path::segments(c);
    text::lemma_split_pieces(a, '/');
    if ancestor(a, b) && ancestor(b, a) {
        if a.len() == 0 || b.len() == 0 {
            lemma_canonical_has_no_trailing_slash(a);
            lemma_canonical_has_no_trailing_slash(b);
            assert(a =~= b);
        } else {
            assert(x =~= y);
        }
    }
    if ancestor(a, b) && ancestor(b, c) && a.len() > 0 {
        if b.len() == 0 {
            lemma_canonical_has_no_trailing_slash(a);
            lemma_canonical_has_no_trailing_slash(b);
            assert(false);
        }
        assert(x =~= z.subrange(0, x.len() as int)) by {
            assert(x =~= y.subrange(0, x.len() as int));
            assert(y =~= z.subrange(0, y.len() as int));
            assert forall|i: int| 0 <= i < x.len() implies x[i] == z[i] by {
                assert(x[i] == y.subrange(0, x.len() as int)[i]);
                assert(y[i] == z.subrange(0, y.len() as int)[i]);
            }
        }
    }
}

/// No name is both an image and a video.
pub proof fn law_images_and_videos_are_disjoint(name: Seq<char>)
    ensures
        !(image_name(name) && video_name(name)),
{
    reveal_strlit("jpg");
    reveal_strlit("jpeg");
    reveal_strlit("png");
    reveal_strlit("webp");
    reveal_strlit("mp4");
    reveal_strlit("mov");
    reveal_strlit("avi");
    reveal_strlit("webm");
    reveal_strlit("mkv");
    let e = extension_key(name);
    if image_extension(e) && video_extension(e) {
        assert(e[0] == 'j' || e[0] == 'p' || e[0] == 'w');
        assert(e[0] == 'm' || e[0] == 'a' || (e[0] == 'w' && e[3] == 'm'));
        assert(e[0] == 'w' ==> e[3] == 'p');
    }
}

/// Two videos with the same stem have the same thumbnail, whatever their
/// containers; so do two images with the same stem and the same extension up
/// to case.
pub proof fn law_thumbnails_are_shared_by_stem(a: Seq<char>, b: Seq<char>)
    requires
        stem_of(a) == stem_of(b),
    ensures
        video_name(a) && video_name(b) ==> thumb_name_of(a) == thumb_name_of(b),
        !video_name(a) && !video_name(b) && text::lowercase(extension_of(a)) == text::lowercase(
            extension_of(b),
        ) ==> thumb_name_of(a) == thumb_name_of(b),
{
}

/// A name is classified by what follows its last dot, in lowercase, and by nothing
/// else.
pub proof fn law_media_are_told_by_their_extension(stem: Seq<char>, ext: Seq<char>)
    requires
        !ext.contains('.'),
    ensures
        ({
            let name = stem + "."@ + ext;
            let key = text::lowercase(ext);
            let is_image = key == "jpg"@ || key == "jpeg"@ || key == "png"@ || key == "webp"@;
            let is_video = key == "mp4"@ || key == "mov"@ || key == "avi"@ || key == "webm"@
                || key == "mkv"@;
            &&& image_name(name) <==> is_image
            &&& video_name(name) <==> is_video
            &&& media_name(name) <==> is_image || is_video
            &&& media_type_of(name) == if is_video {
                "video"@
            } else {
                "image"@
            }
        }),
{
    reveal_strlit(".");
    assert(stem + "."@ + ext =~= stem.push('.') + ext);
    text::lemma_split_append(stem, ext, '.');
    text::lemma_split_plain(ext, '.');
    assert((text::split(stem, '.') + seq![ext]).last() == ext);
}

/// A name with a stem and an extension comes apart into the two.
pub proof fn lemma_name_parts(stem: Seq<char>, ext: Seq<char>)
    requires
        stem.len() > 0,
        ext.len() > 0,
        !stem.contains('/'),
        !ext.contains('/'),
        !ext.contains('.'),
    ensures
        !(stem + "."@ + ext).contains('/'),
        path::file_name_of(stem + "."@ + ext) == Some(stem + "."@ + ext),
        stem_of(stem + "."@ + ext) == stem,
        extension_of(stem + "."@ + ext) == ext,
{
    reveal_strlit(".");
    let name = stem + "."@ + ext;
    assert(name =~= stem.push('.') + ext);
    assert(!name.contains('/')) by {
        if name.contains('/') {
            let k = choose|k: int| 0 <= k < name.len() && name[k] == '/';
            if k < stem.len() {
                assert(stem[k] == '/');
            } else if k > stem.len() {
                assert(ext[k - stem.len() - 1] == '/');
            }
        }
    }
    text::lemma_split_plain(name, '/');
    assert(path::segments(name).drop_first() =~= Seq::<Seq<char>>::empty());
    assert(path::body(path::segments(name)).last() == name);
    text::lemma_split_append(stem, ext, '.');
    text::lemma_split_plain(ext, '.');
    text::lemma_split_pieces(stem, '.');
    text::lemma_join_split(stem, '.');
    let pieces = text::split(stem, '.');
    assert((pieces + seq![ext]).drop_last() =~= pieces);
    assert((pieces + seq![ext]).last() == ext);
    if pieces.len() == 1 {
        assert(pieces[0] == stem);
        assert((pieces + seq![ext])[0] == stem);
    }
}

/// The thumbnail of a file is called after its stem. That of a video is a JPEG,
/// whatever the container; that of an image keeps its extension, in lowercase.
pub proof fn law_thumbnails_are_called_after_their_source(stem: Seq<char>, ext: Seq<char>)
    requires
        stem.len() > 0,
        ext.len() > 0,
        !stem.contains('/'),
        !ext.contains('/'),
        !ext.contains('.'),
    ensures
        ({
            let name = stem + "."@ + ext;
            let key = text::lowercase(ext);
            let is_video = key == "mp4"@ || key == "mov"@ || key == "avi"@ || key == "webm"@
                || key == "mkv"@;
            thumb_name_of(name) == stem + "_thumb."@ + if is_video {
                "jpg"@
            } else {
                key
            }
        }),
{
    reveal_strlit("_thumb.");
    reveal_strlit("_thumb.jpg");
    reveal_strlit("jpg");
    lemma_name_parts(stem, ext);
    law_media_are_told_by_their_extension(stem, ext);
    assert("_thumb.jpg"@ =~= "_thumb."@ + "jpg"@);
    assert(stem + "_thumb.jpg"@ =~= stem + "_thumb."@ + "jpg"@);
}

/// How the look-up of a path ends: it is refused where it could escape, not found
/// where there is nothing, and else inside the album or refused.
pub proof fn law_how_a_path_resolves(
    rel: Seq<char>,
    found: Seq<char>,
    root: Seq<char>,
    canonical: Option<Seq<char>>,
    canonical_root: Option<Seq<char>>,
)
    ensures
        validated(rel) is None ==> resolved(rel, canonical, canonical_root) == Err::<
            Seq<char>,
            PathError,
        >(PathError::Rejected),
        validated(rel) is Some ==> {
            &&& resolved(rel, None, canonical_root) == Err::<Seq<char>, PathError>(
                PathError::NotFound,
            )
            &&& resolved(rel, canonical, None) == Err::<Seq<char>, PathError>(PathError::NotFound)
            &&& path::is_within(found, root) ==> resolved(rel, Some(found), Some(root)) == Ok::<
                Seq<char>,
                PathError,
            >(found)
            &&& !path::is_within(found, root) ==> resolved(rel, Some(found), Some(root)) == Err::<
                Seq<char>,
                PathError,
            >(PathError::Rejected)
        },
{
}

/// A path is refused where it is rooted, or climbs anywhere on its way.
pub proof fn law_paths_that_climb_are_refused(a: Seq<char>, b: Seq<char>)
    ensures
        validated("/"@ + b) is None,
        validated(".."@) is None,
        validated("../"@ + b) is None,
        validated(a + "/.."@) is None,
        validated(a + "/../"@ + b) is None,
{
    reveal_strlit("/");
    reveal_strlit("..");
    reveal_strlit("../");
    reveal_strlit("/..");
    reveal_strlit("/../");
    let up = path::dot_dot();
    assert(".."@ =~= up);
    assert(!up.contains('/'));
    text::lemma_split_plain(up, '/');
    assert(("/"@ + b)[0] == '/');
    assert(seq![up][0] == up);
    assert("../"@ + b =~= up.push('/') + b);
    text::lemma_split_append(up, b, '/');
    assert((seq![up] + path::segments(b))[0] == up);
    assert(a + "/.."@ =~= a.push('/') + up);
    text::lemma_split_append(a, up, '/');
    let n = path::segments(a).len() as int;
    assert((path::segments(a) + seq![up])[n] == up);
    assert(a + "/../"@ + b =~= a.push('/') + (up.push('/') + b));
    text::lemma_split_append(a, up.push('/') + b, '/');
    assert((path::segments(a) + (seq![up] + path::segments(b)))[n] == up);
}

/// A path whose segments all name something, none of them `..`, is taken as it
/// is, unless it begins with a drive.
pub proof fn law_a_plain_path_is_taken_as_it_is(p: Seq<char>)
    requires
        path::is_plain_path(p),
        !path::segments(p).contains(path::dot_dot()),
        !has_drive_prefix(p),
    ensures
        validated(p) == Some(p),
{
    let is_named = |x: Seq<char>| path::is_plain(x);
    let parts = path::segments(p);
    text::lemma_split_pieces(p, '/');
    text::lemma_join_split(p, '/');
    lemma_filter_all(parts, is_named);
    assert(named_segments(p) == parts);
    lemma_join_first(parts, '/');
    assert(path::is_plain(parts[0]));
    assert(p[0] == parts[0][0]);
    assert(parts[0].contains(parts[0][0]));
}

/// Doubled separators and `.` on the way change nothing about what a path means.
pub proof fn law_detours_do_not_matter(a: Seq<char>, b: Seq<char>)
    requires
        a.len() > 0,
    ensures
        validated(a + "//"@ + b) == validated(a + "/"@ + b),
        validated(a + "/./"@ + b) == validated(a + "/"@ + b),
{
    reveal_strlit("/");
    reveal_strlit("//");
    reveal_strlit("/./");
    let is_named = |x: Seq<char>| path::is_plain(x);
    let nothing = Seq::<char>::empty();
    let here = path::dot();
    let straight = a + "/"@ + b;
    let doubled = a + "//"@ + b;
    let dotted = a + "/./"@ + b;
    assert(straight =~= a.push('/') + b);
    assert(doubled =~= a.push('/') + (nothing.push('/') + b));
    assert(dotted =~= a.push('/') + (here.push('/') + b));
    assert(!here.contains('/'));
    text::lemma_split_append(a, b, '/');
    text::lemma_split_append(nothing, b, '/');
    text::lemma_split_append(here, b, '/');
    text::lemma_split_append(a, nothing.push('/') + b, '/');
    text::lemma_split_append(a, here.push('/') + b, '/');
    text::lemma_split_plain(nothing, '/');
    text::lemma_split_plain(here, '/');
    let x = path::segments(a);
    let y = path::segments(b);
    lemma_detour(x, nothing, y);
    lemma_detour(x, here, y);
    text::lemma_split_pieces(a, '/');
    assert(straight[0] == a[0] && doubled[0] == a[0] && dotted[0] == a[0]);
    if a[0] != '/' && named_segments(straight).len() == 0 {
        assert(!path::is_plain(x[0])) by {
            assert(path::segments(straight)[0] == x[0]);
            if path::is_plain(x[0]) {
                path::segments(straight).lemma_filter_contains(is_named, 0);
            }
        }
        lemma_join_first(x, '/');
        text::lemma_join_split(a, '/');
        assert(x[0] == here) by {
            if x[0].len() == 0 {
                if x.len() == 1 {
                    assert(a == x[0]);
                } else {
                    lemma_first_empty(x);
                }
            }
        }
        assert(path::segments(straight)[0] == here);
        assert(path::segments(doubled)[0] == here);
        assert(path::segments(dotted)[0] == here);
    }
}

/// A joined text whose first piece is empty begins with the separator.
proof fn lemma_first_empty(parts: Seq<Seq<char>>)
    requires
        parts.len() > 1,
        parts[0].len() == 0,
    ensures
        text::join(parts, '/').len() > 0,
        text::join(parts, '/')[0] == '/',
    decreases parts.len(),
{
    let front = parts.drop_last();
    if front.len() > 1 {
        lemma_first_empty(front);
    } else {
        assert(front.len() == 1);
        assert(text::join(front, '/') == parts[0]);
    }
}

/// A segment that names nothing adds no name, and neither brings nor hides a
/// climb.
proof fn lemma_detour(x: Seq<Seq<char>>, s: Seq<char>, y: Seq<Seq<char>>)
    requires
        !path::is_plain(s),
    ensures
        ({
            let is_named = |z: Seq<char>| path::is_plain(z);
            let long = x + (seq![s] + y);
            &&& long.filter(is_named) == (x + y).filter(is_named)
            &&& long.contains(path::dot_dot()) == (x + y).contains(path::dot_dot())
        }),
{
    let is_named = |z: Seq<char>| path::is_plain(z);
    let long = x + (seq![s] + y);
    let up = path::dot_dot();
    Seq::filter_distributes_over_add(x, seq![s] + y, is_named);
    Seq::filter_distributes_over_add(seq![s], y, is_named);
    Seq::filter_distributes_over_add(x, y, is_named);
    assert(seq![s].filter(is_named) =~= Seq::<Seq<char>>::empty()) by {
        reveal(Seq::filter);
        assert(seq![s].drop_last() =~= Seq::<Seq<char>>::empty());
        assert(seq![s].drop_last().filter(is_named) =~= Seq::<Seq<char>>::empty());
        assert(seq![s].last() == s);
    }
    assert(Seq::<Seq<char>>::empty() + y.filter(is_named) =~= y.filter(is_named));
    assert(up.len() == 2 && path::dot().len() == 1);
    if long.contains(up) {
        let k = choose|k: int| 0 <= k < long.len() && long[k] == up;
        if k < x.len() {
            assert((x + y)[k] == up);
        } else {
            assert(k != x.len());
            assert((x + y)[k - 1] == up);
        }
    }
    if (x + y).contains(up) {
        let k = choose|k: int| 0 <= k < (x + y).len() && (x + y)[k] == up;
        if k < x.len() {
            assert(long[k] == up);
        } else {
            assert(long[k + 1] == up);
        }
    }
}

/// The piece before the first separator ends there.
proof fn lemma_first_piece(parts: Seq<Seq<char>>)
    requires
        parts.len() > 1,
    ensures
        text::join(parts, '/').len() > parts[0].len(),
        text::join(parts, '/')[parts[0].len() as int] == '/',
    decreases parts.len(),
{
    let front = parts.drop_last();
    if front.len() > 1 {
        lemma_first_piece(front);
    } else {
        assert(text::join(front, '/') == parts[0]);
    }
}

/// The first of the kept elements is the first element, where that is kept.
proof fn lemma_first_kept(parts: Seq<Seq<char>>, keep: spec_fn(Seq<char>) -> bool)
    requires
        parts.len() > 0,
        keep(parts[0]),
    ensures
        parts.filter(keep).len() > 0,
        parts.filter(keep)[0] == parts[0],
    decreases parts.len(),
{
    reveal(Seq::filter);
    if parts.len() > 1 {
        lemma_first_kept(parts.drop_last(), keep);
    } else {
        assert(parts.drop_last().filter(keep) =~= Seq::<Seq<char>>::empty());
    }
}

/// A path that begins with a drive is refused, whatever follows.
pub proof fn law_drives_are_refused(letter: char, rest: Seq<char>)
    requires
        'A' <= letter <= 'Z' || 'a' <= letter <= 'z',
    ensures
        validated(seq![letter, ':'] + rest) is None,
{
    let p = seq![letter, ':'] + rest;
    let parts = path::segments(p);
    let is_named = |x: Seq<char>| path::is_plain(x);
    text::lemma_split_pieces(p, '/');
    text::lemma_join_split(p, '/');
    assert(p[0] == letter && p[1] == ':');
    lemma_join_first(parts, '/');
    if parts.len() > 1 {
        lemma_first_piece(parts);
    } else {
        assert(parts[0] == p);
    }
    let first = parts[0];
    assert(first =~= p.subrange(0, first.len() as int));
    assert(first.len() >= 2);
    assert(first[0] == letter && first[1] == ':');
    assert(path::is_plain(first)) by {
        assert(path::dot().len() == 1);
    }
    lemma_first_kept(parts, is_named);
    let names = named_segments(p);
    lemma_join_first(names, '/');
    let q = normalized(p);
    assert(first =~= q.subrange(0, first.len() as int));
    assert(q[0] == first[0] && q[1] == first[1]);
}

/// An album path is looked up beneath the album root, and never where it is refused.
pub proof fn law_album_paths_are_looked_up_beneath_the_root(root: Seq<char>, rel: Seq<char>)
    requires
        path::is_plain_path(root),
        path::is_plain_path(rel),
    ensures
        validated(rel) is None ==> disk_path("/"@ + root, rel) is None,
        validated(rel) is Some ==> disk_path("/"@ + root, rel) == Some("/"@ + root + "/"@ + rel),
{
    let is_named = |x: Seq<char>| path::is_plain(x);
    let parts = path::segments(rel);
    text::lemma_split_pieces(rel, '/');
    text::lemma_join_split(rel, '/');
    lemma_filter_all(parts, is_named);
    assert(normalized(rel) == rel);
    path::law_stripping_undoes_joining(root, rel);
}

} // verus!
