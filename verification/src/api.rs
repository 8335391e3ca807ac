//! The decisions behind the web interface.

use crate::cache;
use crate::config::Config;
use crate::covers::CoverCache;
use crate::db;
use crate::db::Change;
use crate::db::Tables;
use crate::db::Write;
use crate::html;
use crate::models::SetCoverRequest;
use crate::path;
use crate::text;
use crate::util;
use crate::util::PathError;
use vstd::prelude::*;

verus! {

/// The query of a listing request.
#[derive(Debug, Clone)]
pub struct AlbumQuery {
    pub path: String,
}

/// The query of a share request.
#[derive(Debug, Clone)]
pub struct ShareQuery {
    pub path: String,
    /// A bare file name inside `path`. Without one the folder is shared.
    pub photo: String,
}

/// How a request that is not answered with content ends.
#[derive(Debug, Clone, Copy, PartialEq, Eq, Structural)]
pub enum Status {
    NoContent,
    BadRequest,
    Forbidden,
    NotFound,
    Internal,
}

impl Status {
    /// The HTTP status code.
    pub fn code(self) -> (r: u16)
        ensures
            r == match self {
                Status::NoContent => 204,
                Status::BadRequest => 400,
                Status::Forbidden => 403,
                Status::NotFound => 404,
                Status::Internal => 500int,
            },
            r == status_code(self),
    {
        match self {
            Status::NoContent => 204,
            Status::BadRequest => 400,
            Status::Forbidden => 403,
            Status::NotFound => 404,
            Status::Internal => 500,
        }
    }
}

/// The HTTP status code.
pub open spec fn status_code(status: Status) -> int {
    match status {
        Status::NoContent => 204,
        Status::BadRequest => 400,
        Status::Forbidden => 403,
        Status::NotFound => 404,
        Status::Internal => 500,
    }
}

/// How a path that cannot be resolved is answered: a path that is rejected is a
/// bad request, one that is merely absent is not found.
pub open spec fn path_status(error: PathError) -> Status {
    match error {
        PathError::Rejected => Status::BadRequest,
        PathError::NotFound => Status::NotFound,
    }
}

fn status_of(error: PathError) -> (r: Status)
    ensures
        r == path_status(error),
{
    match error {
        PathError::Rejected => Status::BadRequest,
        PathError::NotFound => Status::NotFound,
    }
}

/// The folder a listing request is for, in canonical form.
pub fn album_path(query: &AlbumQuery) -> (r: Result<String, Status>)
    ensures
        match util::validated(query.path@) {
            Some(rel) => r is Ok && r->Ok_0@ == rel,
            None => r is Err && r->Err_0 == Status::BadRequest,
        },
{
    match util::validate_path(&query.path) {
        Some(rel) => Ok(rel),
        None => Err(Status::BadRequest),
    }
}

/// The directory to list, or how the request is answered where there is none.
pub open spec fn album_folder(
    rel: Seq<char>,
    canonical: Option<Seq<char>>,
    canonical_root: Option<Seq<char>>,
    is_dir: bool,
) -> Result<Seq<char>, Status> {
    match util::resolved(rel, canonical, canonical_root) {
        Err(e) => Err(path_status(e)),
        Ok(abs) => if is_dir {
            Ok(abs)
        } else {
            Err(Status::NotFound)
        },
    }
}

/// Decides which directory a listing request is for. `canonical` and
/// `canonical_root` are what the file system resolves the folder and the album
/// root to, and `is_dir` says whether the folder is a directory.
pub fn get_album(
    rel: &str,
    canonical: Option<String>,
    canonical_root: Option<String>,
    is_dir: bool,
) -> (r: Result<String, Status>)
    ensures
        match album_folder(
            rel@,
            util::opt_view(canonical),
            util::opt_view(canonical_root),
            is_dir,
        ) {
            Ok(abs) => r is Ok && r->Ok_0@ == abs,
            Err(e) => r is Err && r->Err_0 == e,
        },
{
    match util::resolve_album_path_checked(rel, canonical, canonical_root) {
        Err(e) => Err(status_of(e)),
        Ok(abs) => {
            if is_dir {
                Ok(abs)
            } else {
                Err(Status::NotFound)
            }
        },
    }
}

/// Whether two texts are the same but for the case of ASCII letters.
pub fn same_ignoring_case(a: &str, b: &str) -> (r: bool)
    ensures
        r == (text::ascii_folded(a@) == text::ascii_folded(b@)),
{
    let x = text::to_chars(a);
    let y = text::to_chars(b);
    let ghost fa = text::ascii_folded(a@);
    let ghost fb = text::ascii_folded(b@);
    if x.len() != y.len() {
        proof {
            assert(fa.len() != fb.len());
        }
        return false;
    }
    let mut i: usize = 0;
    while i < x.len()
        invariant
            i <= x@.len() == y@.len(),
            x@ == a@,
            y@ == b@,
            fa == text::ascii_folded(a@),
            fb == text::ascii_folded(b@),
            forall|j: int| 0 <= j < i ==> #[trigger] fa[j] == fb[j],
        decreases x.len() - i,
    {
        if text::lower_ascii(x[i]) != text::lower_ascii(y[i]) {
            proof {
                assert(fa[i as int] != fb[i as int]);
            }
            return false;
        }
        i = i + 1;
    }
    proof {
        assert(fa =~= fb);
    }
    true
}

/// Whether a change is authorised: the key is the configured one, which must not
/// be empty, and the request does not come from a foreign origin. A request
/// without an origin does not come from a browser, and is allowed.
pub open spec fn authorized(
    key: Option<Seq<char>>,
    origin: Option<Seq<char>>,
    admin_key: Seq<char>,
    public_url: Seq<char>,
) -> bool {
    let given = match key {
        Some(k) => k,
        None => Seq::<char>::empty(),
    };
    &&& given == admin_key
    &&& admin_key.len() > 0
    &&& origin is Some && origin->0.len() > 0 ==> text::ascii_folded(origin->0) == text::ascii_folded(
        html::origin(public_url),
    )
}

/// The headers of a request that authorise a change.
#[derive(Debug, Clone)]
pub struct CoverHeaders {
    /// The admin key sent, if any.
    pub admin_key: Option<String>,
    /// The origin of the page that sent the request, if any.
    pub origin: Option<String>,
}

/// Whether the headers of a request authorise a change under `config`.
pub open spec fn grants(headers: CoverHeaders, config: Config) -> bool {
    authorized(
        util::opt_view(headers.admin_key),
        util::opt_view(headers.origin),
        config.admin.key@,
        config.server.public_url@,
    )
}

/// Whether the headers of a request authorise a change.
pub fn authorize(headers: &CoverHeaders, config: &Config) -> (r: bool)
    ensures
        r == grants(*headers, *config),
{
    if config.admin.key.as_str().is_empty() {
        return false;
    }
    let matches_key = match &headers.admin_key {
        Some(k) => text::same_text(k, &config.admin.key),
        None => false,
    };
    if !matches_key {
        return false;
    }
    match &headers.origin {
        Some(o) => {
            if o.as_str().is_empty() {
                true
            } else {
                same_ignoring_case(o, &html::origin_of(&config.server.public_url))
            }
        },
        None => true,
    }
}

/// What was found out about a request to set a cover.
pub struct CoverFacts {
    /// What the file system resolves the image to.
    pub canonical: Option<String>,
    /// What the file system resolves the album root to.
    pub canonical_root: Option<String>,
    /// Whether the image is a file.
    pub is_file: bool,
    /// Whether each target, in canonical form, is a directory.
    pub target_is_dir: Vec<bool>,
}

/// How a target is answered where it cannot have the cover.
pub open spec fn target_error(target: Seq<char>, is_dir: bool, image: Seq<char>) -> Option<Status> {
    match util::validated(target) {
        None => Some(Status::BadRequest),
        Some(folder) => if !util::ancestor(folder, image) {
            Some(Status::BadRequest)
        } else if !is_dir {
            Some(Status::NotFound)
        } else {
            None
        },
    }
}

/// How the first target that cannot have the cover is answered.
pub open spec fn first_target_error(
    targets: Seq<Seq<char>>,
    is_dir: Seq<bool>,
    image: Seq<char>,
) -> Option<Status>
    decreases targets.len(),
{
    if targets.len() == 0 {
        None
    } else {
        match target_error(targets.first(), is_dir.first(), image) {
            Some(e) => Some(e),
            None => first_target_error(targets.drop_first(), is_dir.drop_first(), image),
        }
    }
}

/// How the image of a request is answered where it cannot be a cover.
pub open spec fn image_error(
    image: Seq<char>,
    canonical: Option<Seq<char>>,
    canonical_root: Option<Seq<char>>,
    is_file: bool,
) -> Option<Status> {
    match util::resolved(image, canonical, canonical_root) {
        Err(e) => Some(path_status(e)),
        Ok(_) => if is_file && util::media_name(image) {
            None
        } else {
            Some(Status::NotFound)
        },
    }
}

/// The changes that make `image` the cover of each target.
pub open spec fn cover_changes(targets: Seq<Seq<char>>, image: Seq<char>) -> Seq<Change> {
    targets.map_values(
        |t: Seq<char>| Change::SetCover { folder: util::normalized(t), image },
    )
}

/// What a request to set a cover comes to: the changes to make, or how it is
/// refused. Nothing is changed unless everything is in order.
pub open spec fn cover_decision(
    authorized: bool,
    image_path: Seq<char>,
    targets: Seq<Seq<char>>,
    canonical: Option<Seq<char>>,
    canonical_root: Option<Seq<char>>,
    is_file: bool,
    target_is_dir: Seq<bool>,
) -> Result<Seq<Change>, Status> {
    if !authorized {
        Err(Status::Forbidden)
    } else {
        match util::validated(image_path) {
            None => Err(Status::BadRequest),
            Some(image) => match image_error(image, canonical, canonical_root, is_file) {
                Some(e) => Err(e),
                None => match first_target_error(targets, target_is_dir, image) {
                    Some(e) => Err(e),
                    None => Ok(cover_changes(targets, image)),
                },
            },
        }
    }
}

/// Decides a request to set a cover. The paths stored are in canonical form,
/// whatever form they were sent in, so that a later look-up finds them.
pub fn set_cover(
    headers: &CoverHeaders,
    config: &Config,
    body: &SetCoverRequest,
    facts: CoverFacts,
) -> (r: Result<Vec<Write>, Status>)
    requires
        facts.target_is_dir@.len() == body.targets@.len(),
    ensures
        match cover_decision(
            grants(*headers, *config),
            body.image_path@,
            text::string_views(body.targets@),
            util::opt_view(facts.canonical),
            util::opt_view(facts.canonical_root),
            facts.is_file,
            facts.target_is_dir@,
        ) {
            Ok(changes) => r is Ok && db::changes(r->Ok_0@) == changes,
            Err(e) => r is Err && r->Err_0 == e,
        },
{
    if !authorize(headers, config) {
        return Err(Status::Forbidden);
    }
    let image = match util::validate_path(&body.image_path) {
        Some(image) => image,
        None => return Err(Status::BadRequest),
    };
    match util::resolve_album_path_checked(&image, facts.canonical, facts.canonical_root) {
        Err(e) => return Err(status_of(e)),
        Ok(_) => {},
    }
    if !facts.is_file || !util::is_media_file(&image) {
        return Err(Status::NotFound);
    }
    cover_writes(&body.targets, &facts.target_is_dir, &image)
}

/// How a request to set a cover is answered, given how it was refused, if it was,
/// and whether the changes could be written.
pub open spec fn cover_answer(refusal: Option<Status>, written: bool) -> Status {
    match refusal {
        Some(e) => e,
        None => if written {
            Status::NoContent
        } else {
            Status::Internal
        },
    }
}

/// Whether a request to set a cover was carried out.
pub open spec fn is_carried_out(refusal: Option<Status>, written: bool) -> bool {
    refusal is None && written
}

/// How a request was refused, if it was.
pub open spec fn refusal_of(decision: Result<Vec<Write>, Status>) -> Option<Status> {
    match decision {
        Ok(_) => None,
        Err(e) => Some(e),
    }
}

/// Answers a request to set a cover, given what was decided of it and whether the
/// changes could be written. A listing shows covers out of the cache, and no file
/// has changed, so a request that was carried out drops what is cached.
pub fn finish_set_cover(
    decision: &Result<Vec<Write>, Status>,
    written: bool,
    covers: &mut CoverCache,
) -> (r: Result<Status, Status>)
    requires
        old(covers).wf(),
    ensures
        final(covers).wf(),
        match *decision {
            Err(e) => r is Err && r->Err_0 == e && final(covers)@ == old(covers)@,
            Ok(_) => if written {
                r is Ok && r->Ok_0 == Status::NoContent && final(covers)@ == cache::invalidated(
                    old(covers)@,
                )
            } else {
                r is Err && r->Err_0 == Status::Internal && final(covers)@ == old(covers)@
            },
        },
        match r {
            Ok(status) => is_carried_out(refusal_of(*decision), written) && status == cover_answer(
                refusal_of(*decision),
                written,
            ),
            Err(status) => !is_carried_out(refusal_of(*decision), written) && status
                == cover_answer(refusal_of(*decision), written),
        },
        final(covers)@ == if is_carried_out(refusal_of(*decision), written) {
            cache::invalidated(old(covers)@)
        } else {
            old(covers)@
        },
{
    match decision {
        Err(e) => Err(*e),
        Ok(_) => {
            if written {
                covers.invalidate();
                Ok(Status::NoContent)
            } else {
                Err(Status::Internal)
            }
        },
    }
}

/// The changes that make `image` the cover of each target, or how the first
/// target that cannot have it is answered.
fn cover_writes(targets: &Vec<String>, is_dir: &Vec<bool>, image: &str) -> (r: Result<
    Vec<Write>,
    Status,
>)
    requires
        is_dir@.len() == targets@.len(),
    ensures
        match first_target_error(text::string_views(targets@), is_dir@, image@) {
            Some(e) => r is Err && r->Err_0 == e,
            None => r is Ok && db::changes(r->Ok_0@) == cover_changes(
                text::string_views(targets@),
                image@,
            ),
        },
{
    let ghost all = text::string_views(targets@);
    let ghost change = |t: Seq<char>| Change::SetCover {
        folder: util::normalized(t),
        image: image@,
    };
    let mut writes: Vec<Write> = Vec::new();
    let mut i: usize = 0;
    proof {
        assert(all.skip(0) =~= all);
        assert(is_dir@.skip(0) =~= is_dir@);
        assert(all.take(0).map_values(change) =~= db::changes(writes@));
    }
    while i < targets.len()
        invariant
            i <= targets@.len() == is_dir@.len(),
            all == text::string_views(targets@),
            change == (|t: Seq<char>| Change::SetCover {
                folder: util::normalized(t),
                image: image@,
            }),
            first_target_error(all, is_dir@, image@) == first_target_error(
                all.skip(i as int),
                is_dir@.skip(i as int),
                image@,
            ),
            db::changes(writes@) == all.take(i as int).map_values(change),
        decreases targets.len() - i,
    {
        let ghost before = writes@;
        proof {
            assert(all.skip(i as int).first() == targets@[i as int]@);
            assert(all.skip(i as int).drop_first() =~= all.skip(i + 1));
            assert(is_dir@.skip(i as int).drop_first() =~= is_dir@.skip(i + 1));
            assert(all.take(i + 1) =~= all.take(i as int).push(all[i as int]));
        }
        let folder = match util::validate_path(&targets[i]) {
            Some(folder) => folder,
            None => return Err(Status::BadRequest),
        };
        if !util::is_ancestor(&folder, image) {
            return Err(Status::BadRequest);
        }
        if !is_dir[i] {
            return Err(Status::NotFound);
        }
        let w = Write::SetCover { folder, image: image.to_owned() };
        writes.push(w);
        proof {
            assert(db::changes(writes@) =~= db::changes(before).push(w@));
            assert(all.take(i as int).push(all[i as int]).map_values(change) =~= all.take(
                i as int,
            ).map_values(change).push(change(all[i as int])));
        }
        i = i + 1;
    }
    proof {
        assert(all.take(i as int) =~= all);
    }
    Ok(writes)
}

/// Without an admin key configured nothing is ever authorised, and neither is a
/// request that carries no key.
pub proof fn law_no_change_without_a_key(
    key: Option<Seq<char>>,
    origin: Option<Seq<char>>,
    admin_key: Seq<char>,
    public_url: Seq<char>,
)
    ensures
        admin_key.len() == 0 ==> !authorized(key, origin, admin_key, public_url),
        key is None ==> !authorized(key, origin, admin_key, public_url),
{
}

proof fn lemma_no_target_error(
    targets: Seq<Seq<char>>,
    is_dir: Seq<bool>,
    image: Seq<char>,
    i: int,
)
    requires
        first_target_error(targets, is_dir, image) is None,
        is_dir.len() == targets.len(),
        0 <= i < targets.len(),
    ensures
        target_error(targets[i], is_dir[i], image) is None,
    decreases targets.len(),
{
    if i > 0 {
        lemma_no_target_error(targets.drop_first(), is_dir.drop_first(), image, i - 1);
        assert(targets.drop_first()[i - 1] == targets[i]);
        assert(is_dir.drop_first()[i - 1] == is_dir[i]);
    }
}

proof fn lemma_covers_set(t: Tables, targets: Seq<Seq<char>>, image: Seq<char>)
    ensures
        ({
            let after = db::applied_all(t, cover_changes(targets, image));
            &&& after.metadata == t.metadata
            &&& forall|i: int|
                0 <= i < targets.len() ==> after.covers.contains_key(
                    util::normalized(#[trigger] targets[i]),
                ) && after.covers[util::normalized(targets[i])] == image
            &&& forall|f: Seq<char>|
                (forall|i: int| 0 <= i < targets.len() ==> util::normalized(#[trigger] targets[i])
                    != f) ==> (#[trigger] after.covers.contains_key(f)) == t.covers.contains_key(f)
                    && after.covers[f] == t.covers[f]
        }),
    decreases targets.len(),
{
    if targets.len() > 0 {
        let front = targets.drop_last();
        lemma_covers_set(t, front, image);
        let list = cover_changes(targets, image);
        assert(list.drop_last() =~= cover_changes(front, image));
        let before = db::applied_all(t, cover_changes(front, image));
        let after = db::applied_all(t, list);
        assert(after == db::applied(
            before,
            Change::SetCover { folder: util::normalized(targets.last()), image },
        ));
        assert forall|i: int| 0 <= i < targets.len() implies after.covers.contains_key(
            util::normalized(#[trigger] targets[i]),
        ) && after.covers[util::normalized(targets[i])] == image by {
            if i < front.len() {
                assert(front[i] == targets[i]);
            }
        }
        assert forall|f: Seq<char>|
            (forall|i: int| 0 <= i < targets.len() ==> util::normalized(#[trigger] targets[i])
                != f) implies (#[trigger] after.covers.contains_key(f)) == t.covers.contains_key(f)
            && after.covers[f] == t.covers[f] by {
            assert forall|i: int| 0 <= i < front.len() implies util::normalized(
                #[trigger] front[i],
            ) != f by {
                assert(front[i] == targets[i]);
            }
            assert(util::normalized(targets[targets.len() - 1]) != f);
            assert(before.covers.contains_key(f) == t.covers.contains_key(f));
        }
    }
}

/// A request that is granted sets the cover of every target: what is read back
/// for the canonical form of each target is the canonical form of the image.
pub proof fn law_a_granted_cover_is_read_back(
    t: Tables,
    image_path: Seq<char>,
    targets: Seq<Seq<char>>,
    canonical: Option<Seq<char>>,
    canonical_root: Option<Seq<char>>,
    is_file: bool,
    target_is_dir: Seq<bool>,
    i: int,
)
    requires
        target_is_dir.len() == targets.len(),
        0 <= i < targets.len(),
    ensures
        cover_decision(
            true,
            image_path,
            targets,
            canonical,
            canonical_root,
            is_file,
            target_is_dir,
        ) matches Ok(changes) ==> {
            let after = db::applied_all(t, changes);
            let folder = util::validated(targets[i]);
            let image = util::validated(image_path);
            &&& image is Some && folder is Some
            &&& after.covers.contains_key(folder->0) && after.covers[folder->0] == image->0
            &&& util::is_canonical(folder->0) && util::is_canonical(image->0)
            &&& util::ancestor(folder->0, image->0)
            &&& util::media_name(image->0)
        },
{
    if cover_decision(
        true,
        image_path,
        targets,
        canonical,
        canonical_root,
        is_file,
        target_is_dir,
    ) is Ok {
        let image = util::validated(image_path)->0;
        lemma_no_target_error(targets, target_is_dir, image, i);
        lemma_covers_set(t, targets, image);
        util::law_validated_paths_are_canonical(image_path);
        util::law_validated_paths_are_canonical(targets[i]);
    }
}

/// A request that is granted changes the covers of its targets and nothing else.
pub proof fn law_a_granted_cover_touches_only_its_targets(
    t: Tables,
    targets: Seq<Seq<char>>,
    image: Seq<char>,
    f: Seq<char>,
)
    requires
        forall|i: int| 0 <= i < targets.len() ==> util::normalized(#[trigger] targets[i]) != f,
    ensures
        ({
            let after = db::applied_all(t, cover_changes(targets, image));
            &&& after.metadata == t.metadata
            &&& after.covers.contains_key(f) == t.covers.contains_key(f)
            &&& after.covers[f] == t.covers[f]
        }),
{
    lemma_covers_set(t, targets, image);
}

/// One bad target refuses the whole request, however many good ones come with
/// it.
pub proof fn law_one_bad_target_refuses_all(
    image_path: Seq<char>,
    targets: Seq<Seq<char>>,
    canonical: Option<Seq<char>>,
    canonical_root: Option<Seq<char>>,
    is_file: bool,
    target_is_dir: Seq<bool>,
    image: Seq<char>,
    i: int,
)
    requires
        target_is_dir.len() == targets.len(),
        0 <= i < targets.len(),
        util::validated(image_path) == Some(image),
        target_error(targets[i], target_is_dir[i], image) is Some,
    ensures
        cover_decision(
            true,
            image_path,
            targets,
            canonical,
            canonical_root,
            is_file,
            target_is_dir,
        ) is Err,
{
    if first_target_error(targets, target_is_dir, image) is None {
        lemma_no_target_error(targets, target_is_dir, image, i);
    }
}

/// Who may change covers: whoever sends the configured key, exactly, from the site
/// itself or from outside a browser. An origin counts up to the case of its letters,
/// and a key that is not configured fits nothing.
pub proof fn law_who_may_change_covers(
    key: Option<Seq<char>>,
    origin: Option<Seq<char>>,
    admin_key: Seq<char>,
    public_url: Seq<char>,
)
    ensures
        key == Some(admin_key) && admin_key.len() > 0 ==> {
            &&& authorized(key, None, admin_key, public_url)
            &&& authorized(key, Some(Seq::empty()), admin_key, public_url)
            &&& authorized(key, Some(html::origin(public_url)), admin_key, public_url)
            &&& origin is Some && origin->0.len() > 0 ==> (authorized(
                key,
                origin,
                admin_key,
                public_url,
            ) <==> text::ascii_folded(origin->0) == text::ascii_folded(html::origin(public_url)))
        },
        key != Some(admin_key) || admin_key.len() == 0 ==> !authorized(
            key,
            origin,
            admin_key,
            public_url,
        ),
{
}

/// Whether a target can have the image as its cover: it is an album path above the
/// image, and a directory.
pub open spec fn is_good_target(target: Seq<char>, is_dir: bool, image: Seq<char>) -> bool {
    is_dir && (util::validated(target) matches Some(folder) && util::ancestor(folder, image))
}

proof fn lemma_good_targets(targets: Seq<Seq<char>>, is_dir: Seq<bool>, image: Seq<char>)
    requires
        is_dir.len() == targets.len(),
        forall|i: int|
            0 <= i < targets.len() ==> is_good_target(#[trigger] targets[i], is_dir[i], image),
    ensures
        first_target_error(targets, is_dir, image) is None,
    decreases targets.len(),
{
    if targets.len() > 0 {
        let rest = targets.drop_first();
        let dirs = is_dir.drop_first();
        assert(is_good_target(targets[0], is_dir[0], image));
        assert forall|i: int| 0 <= i < rest.len() implies is_good_target(
            #[trigger] rest[i],
            dirs[i],
            image,
        ) by {
            assert(is_good_target(targets[i + 1], is_dir[i + 1], image));
        }
        lemma_good_targets(rest, dirs, image);
    }
}

proof fn lemma_first_bad_target(
    targets: Seq<Seq<char>>,
    is_dir: Seq<bool>,
    image: Seq<char>,
    k: int,
)
    requires
        is_dir.len() == targets.len(),
        0 <= k < targets.len(),
        forall|i: int|
            0 <= i < k ==> is_good_target(#[trigger] targets[i], is_dir[i], image),
        !is_good_target(targets[k], is_dir[k], image),
    ensures
        first_target_error(targets, is_dir, image) == Some(
            if util::validated(targets[k]) is Some && util::ancestor(
                util::validated(targets[k])->0,
                image,
            ) {
                Status::NotFound
            } else {
                Status::BadRequest
            },
        ),
    decreases k,
{
    if k > 0 {
        let rest = targets.drop_first();
        let dirs = is_dir.drop_first();
        assert(is_good_target(targets[0], is_dir[0], image));
        assert forall|i: int| 0 <= i < k - 1 implies is_good_target(
            #[trigger] rest[i],
            dirs[i],
            image,
        ) by {
            assert(is_good_target(targets[i + 1], is_dir[i + 1], image));
        }
        assert(rest[k - 1] == targets[k] && dirs[k - 1] == is_dir[k]);
        lemma_first_bad_target(rest, dirs, image, k - 1);
    }
}

/// A request that is in order is granted: it is authorised, its image is a media
/// file inside the album, and every target is a directory above the image. Each
/// target then gets the image, both in canonical form, and nothing else is changed.
pub proof fn law_a_request_in_order_is_granted(
    image_path: Seq<char>,
    targets: Seq<Seq<char>>,
    found: Seq<char>,
    root: Seq<char>,
    target_is_dir: Seq<bool>,
)
    requires
        target_is_dir.len() == targets.len(),
        util::validated(image_path) is Some,
        path::is_within(found, root),
        util::image_name(util::validated(image_path)->0) || util::video_name(
            util::validated(image_path)->0,
        ),
        forall|i: int|
            0 <= i < targets.len() ==> is_good_target(
                #[trigger] targets[i],
                target_is_dir[i],
                util::validated(image_path)->0,
            ),
    ensures
        cover_decision(true, image_path, targets, Some(found), Some(root), true, target_is_dir)
            matches Ok(changes) && changes.len() == targets.len() && forall|i: int|
            0 <= i < changes.len() ==> #[trigger] changes[i] == (Change::SetCover {
                folder: util::validated(targets[i])->0,
                image: util::validated(image_path)->0,
            }),
{
    let image = util::validated(image_path)->0;
    util::law_validated_paths_are_canonical(image_path);
    lemma_good_targets(targets, target_is_dir, image);
    let changes = cover_changes(targets, image);
    assert forall|i: int| 0 <= i < changes.len() implies #[trigger] changes[i] == (
    Change::SetCover { folder: util::validated(targets[i])->0, image }) by {
        assert(is_good_target(targets[i], target_is_dir[i], image));
    }
}

/// Why a request is refused: without authority it is forbidden, whatever it asks;
/// a path that could escape, or leads outside, is a bad request; an image that is not
/// there, or is no media file, is not found.
pub proof fn law_why_a_request_is_refused(
    image_path: Seq<char>,
    targets: Seq<Seq<char>>,
    canonical: Option<Seq<char>>,
    canonical_root: Option<Seq<char>>,
    is_file: bool,
    target_is_dir: Seq<bool>,
)
    requires
        target_is_dir.len() == targets.len(),
    ensures
        ({
            let r = cover_decision(
                true,
                image_path,
                targets,
                canonical,
                canonical_root,
                is_file,
                target_is_dir,
            );
            let image = util::validated(image_path);
            let there = canonical is Some && canonical_root is Some;
            let inside = there && path::is_within(canonical->0, canonical_root->0);
            let usable = is_file && (util::image_name(image->0) || util::video_name(image->0));
            &&& cover_decision(
                false,
                image_path,
                targets,
                canonical,
                canonical_root,
                is_file,
                target_is_dir,
            ) == Err::<Seq<Change>, Status>(Status::Forbidden)
            &&& image is None ==> r == Err::<Seq<Change>, Status>(Status::BadRequest)
            &&& image is Some && !there ==> r == Err::<Seq<Change>, Status>(Status::NotFound)
            &&& image is Some && there && !inside ==> r == Err::<Seq<Change>, Status>(
                Status::BadRequest,
            )
            &&& image is Some && inside && !usable ==> r == Err::<Seq<Change>, Status>(
                Status::NotFound,
            )
        }),
{
    if util::validated(image_path) is Some {
        util::law_validated_paths_are_canonical(image_path);
    }
}

/// The first target that cannot have the cover decides the answer: it is a bad
/// request where its path is refused or not above the image, and not found where it
/// is no directory.
pub proof fn law_the_first_bad_target_decides(
    image_path: Seq<char>,
    targets: Seq<Seq<char>>,
    found: Seq<char>,
    root: Seq<char>,
    target_is_dir: Seq<bool>,
    k: int,
)
    requires
        target_is_dir.len() == targets.len(),
        util::validated(image_path) is Some,
        path::is_within(found, root),
        util::media_name(util::validated(image_path)->0),
        0 <= k < targets.len(),
        forall|i: int|
            0 <= i < k ==> is_good_target(
                #[trigger] targets[i],
                target_is_dir[i],
                util::validated(image_path)->0,
            ),
        !is_good_target(targets[k], target_is_dir[k], util::validated(image_path)->0),
    ensures
        ({
            let r = cover_decision(
                true,
                image_path,
                targets,
                Some(found),
                Some(root),
                true,
                target_is_dir,
            );
            let folder = util::validated(targets[k]);
            let above = folder is Some && util::ancestor(
                folder->0,
                util::validated(image_path)->0,
            );
            &&& !above ==> r == Err::<Seq<Change>, Status>(Status::BadRequest)
            &&& above ==> r == Err::<Seq<Change>, Status>(Status::NotFound)
        }),
{
    util::law_validated_paths_are_canonical(image_path);
    lemma_first_bad_target(targets, target_is_dir, util::validated(image_path)->0, k);
}

/// Which directory is listed: the one the folder resolves to, where it is inside the
/// album and a directory. Else the folder is not found, or refused where it leads out.
pub proof fn law_which_directory_is_listed(
    rel: Seq<char>,
    canonical: Option<Seq<char>>,
    canonical_root: Option<Seq<char>>,
    is_dir: bool,
)
    ensures
        ({
            let r = album_folder(rel, canonical, canonical_root, is_dir);
            let there = canonical is Some && canonical_root is Some;
            let inside = there && path::is_within(canonical->0, canonical_root->0);
            let accepted = util::validated(rel) is Some;
            &&& r is Ok <==> accepted && inside && is_dir
            &&& r is Ok ==> r->Ok_0 == canonical->0
            &&& !accepted || (there && !inside) ==> r == Err::<Seq<char>, Status>(Status::BadRequest)
            &&& accepted && (!there || (inside && !is_dir)) ==> r == Err::<Seq<char>, Status>(
                Status::NotFound,
            )
        }),
{
}

/// A request that was carried out is answered without content and drops the computed
/// covers; one that was refused keeps its refusal, and one whose changes could not be
/// written is an error of the server. Neither of these touches the cache.
pub proof fn law_how_a_request_is_answered(e: Status, written: bool)
    ensures
        status_code(cover_answer(None, true)) == 204 && is_carried_out(None, true),
        status_code(cover_answer(None, false)) == 500 && !is_carried_out(None, false),
        cover_answer(Some(e), written) == e && !is_carried_out(Some(e), written),
        status_code(Status::BadRequest) == 400,
        status_code(Status::Forbidden) == 403,
        status_code(Status::NotFound) == 404,
{
}

/// A change is judged by the headers it comes with and the settings of the site: the
/// configured key must be sent, and the origin, where a browser gives one, must be
/// that of the site.
pub proof fn law_a_change_is_judged_by_its_headers(headers: CoverHeaders, config: Config)
    ensures
        grants(headers, config) ==> {
            &&& headers.admin_key is Some && headers.admin_key->0@ == config.admin.key@
            &&& config.admin.key@.len() > 0
            &&& headers.origin is Some && headers.origin->0@.len() > 0 ==> text::ascii_folded(
                headers.origin->0@,
            ) == text::ascii_folded(html::origin(config.server.public_url@))
        },
        config.admin.key@.len() > 0 && headers.admin_key is Some && headers.admin_key->0@
            == config.admin.key@ && (headers.origin is None || headers.origin->0@ == html::origin(
            config.server.public_url@,
        )) ==> grants(headers, config),
{
}

} // verus!
