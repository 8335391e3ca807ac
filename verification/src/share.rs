//! Pages for sharing a folder or a photo.
//!
//! Link-preview crawlers read Open Graph tags from the head of a page and run no
//! scripts. A share page carries those tags for one folder or photo, and sends a
//! human visitor on to it at once.

use crate::api::ShareQuery;
use crate::api::Status;
use crate::config::ServerConfig;
use crate::entry;
use crate::html;
use crate::listing;
use crate::path;
use crate::search;
use crate::text;
use crate::util;
use vstd::prelude::*;

verus! {

/// What a share request is for: a folder, and a file name in it or nothing.
pub struct ShareTarget {
    pub rel: String,
    pub photo: String,
}

/// Whether a photo name is acceptable: nothing, or a bare file name that cannot
/// leave its folder.
pub open spec fn is_bare_name(photo: Seq<char>) -> bool {
    photo.len() == 0 || (!photo.contains('/') && !photo.contains('\\') && util::validated(
        photo,
    ) is Some)
}

/// What a share request is for, where it is acceptable.
pub open spec fn share_target(path: Seq<char>, photo: Seq<char>) -> Option<(Seq<char>, Seq<char>)> {
    match util::validated(path) {
        None => None,
        Some(rel) => if is_bare_name(text::trimmed(photo)) {
            Some((rel, text::trimmed(photo)))
        } else {
            None
        },
    }
}

fn holds(chars: &Vec<char>, c: char) -> (r: bool)
    ensures
        r == chars@.contains(c),
{
    let mut i: usize = 0;
    while i < chars.len()
        invariant
            i <= chars@.len(),
            forall|j: int| 0 <= j < i ==> chars@[j] != c,
        decreases chars.len() - i,
    {
        if chars[i] == c {
            return true;
        }
        i = i + 1;
    }
    false
}

/// Decides what a share request is for.
pub fn share_request(query: &ShareQuery) -> (r: Result<ShareTarget, Status>)
    ensures
        match share_target(query.path@, query.photo@) {
            Some((rel, photo)) => r is Ok && r->Ok_0.rel@ == rel && r->Ok_0.photo@ == photo,
            None => r is Err && r->Err_0 == Status::BadRequest,
        },
{
    let rel = match util::validate_path(&query.path) {
        Some(rel) => rel,
        None => return Err(Status::BadRequest),
    };
    let chars = text::trim_chars(&text::to_chars(&query.photo));
    let photo = text::from_chars(&chars);
    if chars.len() > 0 && (holds(&chars, '/') || holds(&chars, '\\') || util::validate_path(
        &photo,
    ).is_none()) {
        return Err(Status::BadRequest);
    }
    Ok(ShareTarget { rel, photo })
}

/// The pieces of a link-preview card.
#[derive(Debug, Clone)]
pub struct ShareCard {
    pub title: String,
    pub description: String,
    pub image_url: Option<String>,
    pub redirect: String,
}

/// The content of a [`ShareCard`].
pub struct Card {
    pub title: Seq<char>,
    pub description: Seq<char>,
    pub image_url: Option<Seq<char>>,
    pub redirect: Seq<char>,
}

impl View for ShareCard {
    type V = Card;

    open spec fn view(&self) -> Card {
        Card {
            title: self.title@,
            description: self.description@,
            image_url: util::opt_view(self.image_url),
            redirect: self.redirect@,
        }
    }
}

/// What was found out about a folder or photo to be shared.
pub struct ShareFacts {
    /// What the file system resolves it to.
    pub canonical: Option<String>,
    /// What the file system resolves the album root to.
    pub canonical_root: Option<String>,
    /// Whether a folder is a directory, or a photo a file.
    pub is_expected: bool,
    /// The image stored as the cover of a folder.
    pub stored: Option<String>,
    /// Whether that image still exists.
    pub stored_exists: bool,
    /// The cover a search found for a folder. It counts only where the stored
    /// one does not.
    pub computed: Option<String>,
    /// Whether the thumbnail of a photo exists.
    pub thumb_exists: bool,
}

/// The base address of the site, with exactly one slash at its end.
pub open spec fn site_of(public_url: Seq<char>) -> Seq<char> {
    text::trim_end_of(public_url, '/') + "/"@
}

/// The address of a file of the album. Photos are served from the origin,
/// whatever path the site itself is under.
pub open spec fn media_url(public_url: Seq<char>, rel: Seq<char>) -> Seq<char> {
    html::origin(site_of(public_url)) + "/photoalbum/"@ + html::rel_path_encoded(rel)
}

/// A path with its separators spaced out.
pub open spec fn spaced(rel: Seq<char>) -> Seq<char> {
    text::replaced(rel, '/', " / "@)
}

/// The title of a shared folder: its name, or that of the site.
pub open spec fn folder_title(rel: Seq<char>, site_name: Seq<char>) -> Seq<char> {
    let name = path::segments(rel).last();
    if name.len() > 0 {
        name
    } else {
        site_name
    }
}

/// The card of a shared folder.
pub open spec fn folder_card_of(server: ServerConfig, rel: Seq<char>, facts: ShareFacts) -> Card {
    let cover = match listing::explicit(rel, util::opt_view(facts.stored), facts.stored_exists) {
        Some(thumb) => Some(thumb),
        None => util::opt_view(facts.computed),
    };
    Card {
        title: folder_title(rel, server.site_name@),
        description: if rel.len() == 0 {
            "Browse our photo and video collection by folder."@
        } else {
            "Photos and videos in "@ + spaced(rel)
        },
        image_url: match cover {
            Some(thumb) => Some(media_url(server.public_url@, entry::child_path(rel, thumb))),
            None => None,
        },
        redirect: site_of(server.public_url@) + "#path="@ + html::component(rel),
    }
}

/// The card of a shared photo. Its thumbnail is preferred as the image, because
/// originals are too large for some crawlers.
pub open spec fn photo_card_of(
    server: ServerConfig,
    rel: Seq<char>,
    photo: Seq<char>,
    thumb_exists: bool,
) -> Card {
    let photo_rel = entry::child_path(rel, photo);
    Card {
        title: photo,
        description: if rel.len() == 0 {
            server.site_name@
        } else {
            "From "@ + spaced(rel)
        },
        image_url: Some(
            media_url(
                server.public_url@,
                if thumb_exists {
                    thumb_rel_of(rel, photo)
                } else {
                    photo_rel
                },
            ),
        ),
        redirect: media_url(server.public_url@, photo_rel),
    }
}

/// The album path of the thumbnail of a photo.
pub open spec fn thumb_rel_of(rel: Seq<char>, photo: Seq<char>) -> Seq<char> {
    search::thumb_path(rel, util::thumb_name_of(photo))
}

/// The card of what is shared, nothing where it does not exist.
pub open spec fn card_of(
    server: ServerConfig,
    rel: Seq<char>,
    photo: Seq<char>,
    facts: ShareFacts,
) -> Option<Card> {
    let found = |p: Seq<char>|
        util::resolved(p, util::opt_view(facts.canonical), util::opt_view(facts.canonical_root))
            is Ok && facts.is_expected;
    if photo.len() == 0 {
        if found(rel) {
            Some(folder_card_of(server, rel, facts))
        } else {
            None
        }
    } else if found(entry::child_path(rel, photo)) && util::media_name(photo) {
        Some(photo_card_of(server, rel, photo, facts.thumb_exists))
    } else {
        None
    }
}

/// The base address of the site, with exactly one slash at its end.
pub fn site_url(public_url: &str) -> (r: String)
    ensures
        r@ == site_of(public_url@),
{
    let mut out: String = text::from_chars(
        &text::trim_end_chars(&text::to_chars(public_url), '/'),
    );
    out.append("/");
    out
}

/// The address of a file of the album.
pub fn media_address(public_url: &str, rel: &str) -> (r: String)
    ensures
        r@ == media_url(public_url@, rel@),
{
    let mut out: String = html::origin_of(&site_url(public_url));
    out.append("/photoalbum/");
    out.append(&html::encode_rel_path(rel));
    out
}

fn spaced_path(rel: &str) -> (r: String)
    ensures
        r@ == spaced(rel@),
{
    text::from_chars(&text::replace_chars(&text::to_chars(rel), '/', &text::to_chars(" / ")))
}

/// The album path of the thumbnail of a photo.
pub fn thumb_rel(rel: &str, photo: &str) -> (r: String)
    ensures
        r@ == thumb_rel_of(rel@, photo@),
{
    let mut tail: String = "thumbs/".to_owned();
    tail.append(&util::thumb_name(photo));
    entry::child_of(rel, &tail)
}

fn folder_card(server: &ServerConfig, rel: &str, facts: &ShareFacts) -> (r: ShareCard)
    ensures
        r@ == folder_card_of(*server, rel@, *facts),
{
    let parts = text::split_chars(&text::to_chars(rel), '/');
    proof {
        text::lemma_split_pieces(rel@, '/');
        assert(text::views(parts@).len() == parts@.len());
        assert(text::views(parts@).last() == parts@.last()@);
    }
    let name = &parts[parts.len() - 1];
    let title = if name.len() > 0 {
        text::from_chars(name)
    } else {
        server.site_name.clone()
    };
    let description = if rel.is_empty() {
        "Browse our photo and video collection by folder.".to_owned()
    } else {
        let mut out: String = "Photos and videos in ".to_owned();
        out.append(&spaced_path(rel));
        out
    };
    let cover = match listing::explicit_cover(rel, &facts.stored, facts.stored_exists) {
        Some(thumb) => Some(thumb),
        None => match &facts.computed {
            Some(computed) => Some(computed.clone()),
            None => None,
        },
    };
    let image_url = match cover {
        Some(thumb) => Some(media_address(&server.public_url, &entry::child_of(rel, &thumb))),
        None => None,
    };
    let mut redirect: String = site_url(&server.public_url);
    redirect.append("#path=");
    redirect.append(&html::encode_component(rel));
    ShareCard { title, description, image_url, redirect }
}

fn photo_card(server: &ServerConfig, rel: &str, photo: &str, thumb_exists: bool) -> (r: ShareCard)
    ensures
        r@ == photo_card_of(*server, rel@, photo@, thumb_exists),
{
    let photo_rel = entry::child_of(rel, photo);
    let image = if thumb_exists {
        media_address(&server.public_url, &thumb_rel(rel, photo))
    } else {
        media_address(&server.public_url, &photo_rel)
    };
    let description = if rel.is_empty() {
        server.site_name.clone()
    } else {
        let mut out: String = "From ".to_owned();
        out.append(&spaced_path(rel));
        out
    };
    ShareCard {
        title: photo.to_owned(),
        description,
        image_url: Some(image),
        redirect: media_address(&server.public_url, &photo_rel),
    }
}

/// Puts together the card of the folder `rel`, or of the photo in it where
/// `photo` is not empty.
pub fn build_share_card(
    server: &ServerConfig,
    rel: &str,
    photo: &str,
    facts: &ShareFacts,
) -> (r: Result<ShareCard, Status>)
    ensures
        match card_of(*server, rel@, photo@, *facts) {
            Some(card) => r is Ok && r->Ok_0@ == card,
            None => r is Err && r->Err_0 == Status::NotFound,
        },
{
    let canonical = copy_text(&facts.canonical);
    let canonical_root = copy_text(&facts.canonical_root);
    if photo.is_empty() {
        if util::resolve_album_path(rel, canonical, canonical_root).is_none()
            || !facts.is_expected {
            return Err(Status::NotFound);
        }
        Ok(folder_card(server, rel, facts))
    } else {
        let photo_rel = entry::child_of(rel, photo);
        if util::resolve_album_path(&photo_rel, canonical, canonical_root).is_none()
            || !facts.is_expected || !util::is_media_file(photo) {
            return Err(Status::NotFound);
        }
        Ok(photo_card(server, rel, photo, facts.thumb_exists))
    }
}

fn copy_text(s: &Option<String>) -> (r: Option<String>)
    ensures
        util::opt_view(r) == util::opt_view(*s),
{
    match s {
        Some(s) => Some(s.clone()),
        None => None,
    }
}

/// The tags of the preview image, for Open Graph readers.
pub open spec fn image_tags_of(url: Seq<char>, title: Seq<char>) -> Seq<char> {
    "<meta property=\"og:image\" content=\""@ + html::escaped(url)
        + "\">\n<meta property=\"og:image:alt\" content=\""@ + html::escaped(title) + "\">\n"@
}

/// The tag of the preview image, for Twitter cards.
pub open spec fn twitter_image_tag_of(url: Seq<char>) -> Seq<char> {
    "<meta name=\"twitter:image\" content=\""@ + html::escaped(url) + "\">\n"@
}

/// The share page of a card. Without an image there are no image tags, because a
/// crawler would remember a picture that is not there.
pub open spec fn page_of(card: Card, site_name: Seq<char>) -> Seq<char> {
    let title = html::escaped(card.title);
    let description = html::escaped(card.description);
    let redirect = html::escaped(card.redirect);
    let image_tags = match card.image_url {
        Some(url) => image_tags_of(url, card.title),
        None => Seq::<char>::empty(),
    };
    let twitter_image = match card.image_url {
        Some(url) => twitter_image_tag_of(url),
        None => Seq::<char>::empty(),
    };
    let layout = match card.image_url {
        Some(_) => "summary_large_image"@,
        None => "summary"@,
    };
    "<!DOCTYPE html>\n<html lang=\"en\">\n<head>\n<meta charset=\"UTF-8\">\n<title>"@ + title
        + "</title>\n<meta name=\"description\" content=\""@ + description
        + "\">\n<meta property=\"og:type\" content=\"website\">\n<meta property=\"og:site_name\" content=\""@
        + html::escaped(site_name) + "\">\n<meta property=\"og:title\" content=\""@ + title
        + "\">\n<meta property=\"og:description\" content=\""@ + description + "\">\n"@ + image_tags
        + "<meta name=\"twitter:card\" content=\""@ + layout
        + "\">\n<meta name=\"twitter:title\" content=\""@ + title
        + "\">\n<meta name=\"twitter:description\" content=\""@ + description + "\">\n"@
        + twitter_image + "<meta http-equiv=\"refresh\" content=\"0; url="@ + redirect
        + "\">\n</head>\n<body>\n<p><a href=\""@ + redirect + "\">Continue to "@ + title
        + "</a></p>\n</body>\n</html>\n"@
}

/// The share page of a card. A refresh tag forwards the visitor, rather than a
/// script, which a content security policy may block.
pub fn share_page(card: &ShareCard, site_name: &str) -> (r: String)
    ensures
        r@ == page_of(card@, site_name@),
{
    let title = html::escape_html(&card.title);
    let description = html::escape_html(&card.description);
    let redirect = html::escape_html(&card.redirect);
    let mut image_tags: String = String::new();
    let mut twitter_image: String = String::new();
    let layout = match &card.image_url {
        Some(url) => {
            let url = html::escape_html(url);
            image_tags.append("<meta property=\"og:image\" content=\"");
            image_tags.append(&url);
            image_tags.append("\">\n<meta property=\"og:image:alt\" content=\"");
            image_tags.append(&title);
            image_tags.append("\">\n");
            twitter_image.append("<meta name=\"twitter:image\" content=\"");
            twitter_image.append(&url);
            twitter_image.append("\">\n");
            "summary_large_image"
        },
        None => "summary",
    };
    proof {
        match card@.image_url {
            Some(url) => {
                assert(image_tags@ =~= image_tags_of(url, card@.title));
                assert(twitter_image@ =~= twitter_image_tag_of(url));
            },
            None => {
                assert(image_tags@ =~= Seq::<char>::empty());
                assert(twitter_image@ =~= Seq::<char>::empty());
            },
        }
    }
    let mut page: String =
        "<!DOCTYPE html>\n<html lang=\"en\">\n<head>\n<meta charset=\"UTF-8\">\n<title>".to_owned();
    page.append(&title);
    page.append("</title>\n<meta name=\"description\" content=\"");
    page.append(&description);
    page.append(
        "\">\n<meta property=\"og:type\" content=\"website\">\n<meta property=\"og:site_name\" content=\"",
    );
    page.append(&html::escape_html(site_name));
    page.append("\">\n<meta property=\"og:title\" content=\"");
    page.append(&title);
    page.append("\">\n<meta property=\"og:description\" content=\"");
    page.append(&description);
    page.append("\">\n");
    page.append(&image_tags);
    page.append("<meta name=\"twitter:card\" content=\"");
    page.append(layout);
    page.append("\">\n<meta name=\"twitter:title\" content=\"");
    page.append(&title);
    page.append("\">\n<meta name=\"twitter:description\" content=\"");
    page.append(&description);
    page.append("\">\n");
    page.append(&twitter_image);
    page.append("<meta http-equiv=\"refresh\" content=\"0; url=");
    page.append(&redirect);
    page.append("\">\n</head>\n<body>\n<p><a href=\"");
    page.append(&redirect);
    page.append("\">Continue to ");
    page.append(&title);
    page.append("</a></p>\n</body>\n</html>\n");
    page
}

/// A shared photo stays in the folder it is shared from: where the request is
/// acceptable and names a photo, the photo's path is that of the folder and one
/// more name.
pub proof fn law_a_shared_photo_stays_in_its_folder(path: Seq<char>, photo: Seq<char>)
    ensures
        share_target(path, photo) matches Some((rel, name)) ==> {
            &&& util::is_canonical(rel)
            &&& !name.contains('/')
            &&& name.len() > 0 && rel.len() > 0 ==> path::segments(entry::child_path(rel, name))
                == path::segments(rel).push(name)
        },
{
    reveal_strlit("/");
    if share_target(path, photo) is Some {
        let rel = util::validated(path)->0;
        let name = text::trimmed(photo);
        util::law_validated_paths_are_canonical(path);
        if name.len() == 0 {
            assert(!name.contains('/'));
        }
        assert(entry::child_path(rel, name) =~= if rel.len() == 0 {
            name
        } else {
            rel.push('/') + name
        });
        text::lemma_split_append(rel, name, '/');
        text::lemma_split_plain(name, '/');
        assert(path::segments(rel) + seq![name] =~= path::segments(rel).push(name));
    }
}

/// The album path of a photo: behind its folder, or the name alone in the root.
pub open spec fn photo_path(rel: Seq<char>, photo: Seq<char>) -> Seq<char> {
    if rel.len() == 0 {
        photo
    } else {
        rel + "/"@ + photo
    }
}

/// A shared photo leads to itself: whether it has a thumbnail or not, the visitor is
/// sent to the photo in the album, and only the preview image is the thumbnail where
/// there is one. The card is headed by the name of the photo.
pub proof fn law_a_shared_photo_leads_to_itself(
    server: ServerConfig,
    rel: Seq<char>,
    photo: Seq<char>,
    facts: ShareFacts,
    other: ShareFacts,
)
    requires
        photo.len() > 0,
        card_of(server, rel, photo, facts) is Some,
        card_of(server, rel, photo, other) is Some,
    ensures
        ({
            let card = card_of(server, rel, photo, facts)->0;
            let album = html::origin(text::trim_end_of(server.public_url@, '/') + "/"@)
                + "/photoalbum/"@;
            let thumb = if rel.len() == 0 {
                "thumbs/"@ + util::thumb_name_of(photo)
            } else {
                rel + "/thumbs/"@ + util::thumb_name_of(photo)
            };
            &&& card.redirect == card_of(server, rel, photo, other)->0.redirect
            &&& card.redirect == album + html::rel_path_encoded(photo_path(rel, photo))
            &&& facts.thumb_exists ==> card.image_url == Some(album + html::rel_path_encoded(thumb))
            &&& !facts.thumb_exists ==> card.image_url == Some(card.redirect)
            &&& card.title == photo
            &&& rel.len() == 0 ==> card.description == server.site_name@
            &&& rel.len() > 0 ==> card.description == "From "@ + text::replaced(
                rel,
                '/',
                " / "@,
            )
        }),
{
    search::law_thumbnails_lie_in_thumbs(rel, util::thumb_name_of(photo));
}

/// A visitor is sent to the photo that was shared and to no other: the address ends
/// in the album path, encoded, and decoding its segments gives that path back.
pub proof fn law_an_address_names_its_file(public_url: Seq<char>, a: Seq<char>, b: Seq<char>)
    ensures
        media_url(public_url, a) == media_url(public_url, b) ==> a == b,
        text::split(html::rel_path_encoded(a), '/').len() == text::split(a, '/').len(),
        forall|i: int|
            0 <= i < text::split(a, '/').len() ==> html::percent_decoded(
                #[trigger] text::split(html::rel_path_encoded(a), '/')[i],
            ) == vstd::utf8::encode_utf8(text::split(a, '/')[i]),
{
    let encode = |p: Seq<char>| html::component(p);
    let x = text::split(a, '/');
    let y = text::split(b, '/');
    html::law_separators_survive_encoding(a);
    html::law_separators_survive_encoding(b);
    assert forall|i: int| 0 <= i < x.len() implies html::percent_decoded(
        #[trigger] text::split(html::rel_path_encoded(a), '/')[i],
    ) == vstd::utf8::encode_utf8(x[i]) by {
        html::law_components_are_decoded(x[i], x[i]);
    }
    if media_url(public_url, a) == media_url(public_url, b) {
        let front = html::origin(site_of(public_url)) + "/photoalbum/"@;
        assert((front + html::rel_path_encoded(a)).skip(front.len() as int)
            =~= html::rel_path_encoded(a));
        assert((front + html::rel_path_encoded(b)).skip(front.len() as int)
            =~= html::rel_path_encoded(b));
        assert(x.map_values(encode) == y.map_values(encode));
        assert(x.len() == x.map_values(encode).len() == y.map_values(encode).len() == y.len());
        assert forall|i: int| 0 <= i < x.len() implies x[i] == y[i] by {
            assert(x.map_values(encode)[i] == html::component(x[i]));
            assert(y.map_values(encode)[i] == html::component(y[i]));
            html::law_components_are_injective(x[i], y[i]);
        }
        assert(x =~= y);
        text::lemma_join_split(a, '/');
        text::lemma_join_split(b, '/');
    }
}

/// A shared folder leads to its page on the site, whatever its cover. Its preview
/// image is its cover, the stored one before the computed one, and there is none
/// where it has no cover.
pub proof fn law_a_shared_folder_leads_to_its_page(
    server: ServerConfig,
    rel: Seq<char>,
    facts: ShareFacts,
)
    requires
        card_of(server, rel, Seq::empty(), facts) is Some,
    ensures
        ({
            let card = card_of(server, rel, Seq::empty(), facts)->0;
            let site = text::trim_end_of(server.public_url@, '/') + "/"@;
            let stored = facts.stored is Some && facts.stored_exists && search::cover_thumb(
                rel,
                facts.stored->0@,
            ) is Some;
            let cover = if stored {
                search::cover_thumb(rel, facts.stored->0@)
            } else {
                util::opt_view(facts.computed)
            };
            &&& card.redirect == site + "#path="@ + html::component(rel)
            &&& card.image_url is Some <==> cover is Some
            &&& card.image_url is Some ==> card.image_url->0 == html::origin(site)
                + "/photoalbum/"@ + html::rel_path_encoded(photo_path(rel, cover->0))
            &&& rel.len() == 0 ==> card.title == server.site_name@ && card.description
                == "Browse our photo and video collection by folder."@
            &&& rel.len() > 0 ==> card.description == "Photos and videos in "@ + text::replaced(
                rel,
                '/',
                " / "@,
            )
        }),
{
    if rel.len() == 0 {
        let nothing = Seq::<char>::empty();
        assert(rel =~= nothing);
        text::lemma_split_plain(nothing, '/');
        assert(seq![nothing].last() == nothing);
    }
}

/// A shared folder is headed by its own name.
pub proof fn law_a_shared_folder_is_headed_by_its_name(
    dir: Seq<char>,
    name: Seq<char>,
    site_name: Seq<char>,
)
    requires
        name.len() > 0,
        !name.contains('/'),
    ensures
        folder_title(name, site_name) == name,
        folder_title(dir + "/"@ + name, site_name) == name,
{
    reveal_strlit("/");
    text::lemma_split_plain(name, '/');
    assert(seq![name].last() == name);
    assert(dir + "/"@ + name =~= dir.push('/') + name);
    text::lemma_split_append(dir, name, '/');
    assert((path::segments(dir) + seq![name]).last() == name);
}

/// What can be shared: a folder, or a media file in one, that exists inside the
/// album.
pub proof fn law_what_can_be_shared(
    server: ServerConfig,
    rel: Seq<char>,
    photo: Seq<char>,
    facts: ShareFacts,
)
    ensures
        ({
            let target = if photo.len() == 0 {
                rel
            } else {
                photo_path(rel, photo)
            };
            let inside = util::validated(target) is Some && facts.canonical is Some
                && facts.canonical_root is Some && path::is_within(
                facts.canonical->0@,
                facts.canonical_root->0@,
            );
            card_of(server, rel, photo, facts) is Some <==> inside && facts.is_expected && (
            photo.len() == 0 || util::image_name(photo) || util::video_name(photo))
        }),
{
}

/// Which requests are refused: those whose folder could escape the album, and those
/// whose photo is more than a bare name. White space around the name does not count.
pub proof fn law_which_share_requests_are_taken(
    path: Seq<char>,
    a: Seq<char>,
    photo: Seq<char>,
    b: Seq<char>,
)
    requires
        forall|i: int| 0 <= i < a.len() ==> text::is_white_space(#[trigger] a[i]),
        forall|i: int| 0 <= i < b.len() ==> text::is_white_space(#[trigger] b[i]),
        photo.len() > 0 ==> !text::is_white_space(photo.first()) && !text::is_white_space(
            photo.last(),
        ),
    ensures
        ({
            let r = share_target(path, a + photo + b);
            let bare = !photo.contains('/') && !photo.contains('\\') && util::validated(photo)
                is Some;
            &&& r is Some <==> util::validated(path) is Some && (photo.len() == 0 || bare)
            &&& r is Some ==> r->0 == (util::validated(path)->0, photo)
        }),
{
    text::law_trimming_takes_only_white_space(a, photo, b);
}

/// The site has one slash at its end, however many its address was given with.
pub proof fn law_the_site_ends_in_one_slash(url: Seq<char>)
    ensures
        url.len() > 0 && url.last() != '/' ==> site_of(url) == url + "/"@,
        site_of(url + "/"@) == site_of(url),
{
    reveal_strlit("/");
    assert((url + "/"@).last() == '/');
    assert((url + "/"@).drop_last() =~= url);
}

/// Whether `part` stands somewhere in `page`.
pub open spec fn has_part(page: Seq<char>, part: Seq<char>) -> bool {
    exists|before: Seq<char>, after: Seq<char>| page == #[trigger] (before + part + after)
}

/// A share page sends the visitor on to where its card leads, and names the same
/// place in its link.
pub proof fn law_a_page_sends_the_visitor_on(card: Card, site_name: Seq<char>)
    ensures
        has_part(
            page_of(card, site_name),
            "<meta http-equiv=\"refresh\" content=\"0; url="@ + html::escaped(card.redirect)
                + "\">\n</head>\n<body>\n<p><a href=\""@ + html::escaped(card.redirect)
                + "\">Continue to "@ + html::escaped(card.title) + "</a></p>"@,
        ),
{
    let title = html::escaped(card.title);
    let description = html::escaped(card.description);
    let redirect = html::escaped(card.redirect);
    let image_tags = match card.image_url {
        Some(url) => image_tags_of(url, card.title),
        None => Seq::<char>::empty(),
    };
    let twitter_image = match card.image_url {
        Some(url) => twitter_image_tag_of(url),
        None => Seq::<char>::empty(),
    };
    let layout = match card.image_url {
        Some(_) => "summary_large_image"@,
        None => "summary"@,
    };
    let before = "<!DOCTYPE html>\n<html lang=\"en\">\n<head>\n<meta charset=\"UTF-8\">\n<title>"@
        + title + "</title>\n<meta name=\"description\" content=\""@ + description
        + "\">\n<meta property=\"og:type\" content=\"website\">\n<meta property=\"og:site_name\" content=\""@
        + html::escaped(site_name) + "\">\n<meta property=\"og:title\" content=\""@ + title
        + "\">\n<meta property=\"og:description\" content=\""@ + description + "\">\n"@ + image_tags
        + "<meta name=\"twitter:card\" content=\""@ + layout
        + "\">\n<meta name=\"twitter:title\" content=\""@ + title
        + "\">\n<meta name=\"twitter:description\" content=\""@ + description + "\">\n"@
        + twitter_image;
    let refresh = "<meta http-equiv=\"refresh\" content=\"0; url="@;
    let link = "\">\n</head>\n<body>\n<p><a href=\""@;
    let middle = "\">Continue to "@;
    let part = refresh + redirect + link + redirect + middle + title + "</a></p>"@;
    let after = "\n</body>\n</html>\n"@;
    reveal_strlit("</a></p>");
    reveal_strlit("\n</body>\n</html>\n");
    reveal_strlit("</a></p>\n</body>\n</html>\n");
    assert("</a></p>\n</body>\n</html>\n"@ =~= "</a></p>"@ + after);
    let page = before + refresh + redirect + link + redirect + middle + title
        + "</a></p>\n</body>\n</html>\n"@;
    assert(page_of(card, site_name) == page);
    assert(page =~= before + part + after);
}

/// The fixed parts of a share page, cut where the parts that vary begin and end.
proof fn lemma_page_literals()
    ensures
        "<!DOCTYPE html>\n<html lang=\"en\">\n<head>\n<meta charset=\"UTF-8\">\n<title>"@
            == "<!DOCTYPE html>\n<html lang=\"en\">\n<head>\n<meta charset=\"UTF-8\">\n"@
            + "<title>"@,
        "\">\n<meta property=\"og:type\" content=\"website\">\n<meta property=\"og:site_name\" content=\""@
            == "\">"@
            + "\n<meta property=\"og:type\" content=\"website\">\n<meta property=\"og:site_name\" content=\""@,
        "\">\n<meta property=\"og:title\" content=\""@ == "\">\n"@
            + "<meta property=\"og:title\" content=\""@,
        "<meta http-equiv=\"refresh\" content=\"0; url="@ == "<meta http-equiv=\"refresh\""@
            + " content=\"0; url="@,
{
    assert("<!DOCTYPE html>\n<html lang=\"en\">\n<head>\n<meta charset=\"UTF-8\">\n<title>"@
        =~= "<!DOCTYPE html>\n<html lang=\"en\">\n<head>\n<meta charset=\"UTF-8\">\n"@
        + "<title>"@) by {
        reveal_strlit(
            "<!DOCTYPE html>\n<html lang=\"en\">\n<head>\n<meta charset=\"UTF-8\">\n<title>",
        );
        reveal_strlit("<!DOCTYPE html>\n<html lang=\"en\">\n<head>\n<meta charset=\"UTF-8\">\n");
        reveal_strlit("<title>");
    }
    assert("\">\n<meta property=\"og:type\" content=\"website\">\n<meta property=\"og:site_name\" content=\""@
        =~= "\">"@
        + "\n<meta property=\"og:type\" content=\"website\">\n<meta property=\"og:site_name\" content=\""@)
        by {
        reveal_strlit("\">");
        reveal_strlit(
            "\">\n<meta property=\"og:type\" content=\"website\">\n<meta property=\"og:site_name\" content=\"",
        );
        reveal_strlit(
            "\n<meta property=\"og:type\" content=\"website\">\n<meta property=\"og:site_name\" content=\"",
        );
    }
    assert("\">\n<meta property=\"og:title\" content=\""@ =~= "\">\n"@
        + "<meta property=\"og:title\" content=\""@) by {
        reveal_strlit("\">\n");
        reveal_strlit("\">\n<meta property=\"og:title\" content=\"");
        reveal_strlit("<meta property=\"og:title\" content=\"");
    }
    assert("<meta http-equiv=\"refresh\" content=\"0; url="@ =~= "<meta http-equiv=\"refresh\""@
        + " content=\"0; url="@) by {
        reveal_strlit("<meta http-equiv=\"refresh\"");
        reveal_strlit("<meta http-equiv=\"refresh\" content=\"0; url=");
        reveal_strlit(" content=\"0; url=");
    }
}

/// A share page previews its card: title and description are given to readers of the
/// page, of Open Graph and of Twitter cards, and so is the image where there is one.
/// Without an image nothing is said of one, and the card is a small one.
pub proof fn law_a_page_previews_its_card(card: Card, site_name: Seq<char>)
    ensures
        ({
            let title = html::escaped(card.title);
            let description = html::escaped(card.description);
            let page = page_of(card, site_name);
            let preview = "<meta property=\"og:title\" content=\""@ + title
                + "\">\n<meta property=\"og:description\" content=\""@ + description + "\">\n"@ + (
            match card.image_url {
                Some(url) => "<meta property=\"og:image\" content=\""@ + html::escaped(url)
                    + "\">\n<meta property=\"og:image:alt\" content=\""@ + title + "\">\n"@
                    + "<meta name=\"twitter:card\" content=\""@ + "summary_large_image"@,
                None => "<meta name=\"twitter:card\" content=\""@ + "summary"@,
            }) + "\">\n<meta name=\"twitter:title\" content=\""@ + title
                + "\">\n<meta name=\"twitter:description\" content=\""@ + description + "\">\n"@ + (
            match card.image_url {
                Some(url) => "<meta name=\"twitter:image\" content=\""@ + html::escaped(url)
                    + "\">\n"@,
                None => Seq::<char>::empty(),
            }) + "<meta http-equiv=\"refresh\""@;
            &&& has_part(
                page,
                "<title>"@ + title + "</title>\n<meta name=\"description\" content=\""@
                    + description + "\">"@,
            )
            &&& has_part(page, preview)
        }),
{
    let title = html::escaped(card.title);
    let description = html::escaped(card.description);
    let redirect = html::escaped(card.redirect);
    let site = html::escaped(site_name);
    let image_tags = match card.image_url {
        Some(url) => image_tags_of(url, card.title),
        None => Seq::<char>::empty(),
    };
    let twitter_image = match card.image_url {
        Some(url) => twitter_image_tag_of(url),
        None => Seq::<char>::empty(),
    };
    let layout = match card.image_url {
        Some(_) => "summary_large_image"@,
        None => "summary"@,
    };
    lemma_page_literals();
    lemma_page_parts(
        title,
        description,
        redirect,
        site,
        image_tags,
        layout,
        twitter_image,
        page_of(card, site_name),
    );
    let card_tag = "<meta name=\"twitter:card\" content=\""@;
    match card.image_url {
        Some(url) => {
            let a = "<meta property=\"og:image\" content=\""@ + html::escaped(url)
                + "\">\n<meta property=\"og:image:alt\" content=\""@ + title + "\">\n"@;
            assert(image_tags == a);
            assert(image_tags + card_tag + layout == a + card_tag + "summary_large_image"@);
        },
        None => {
            assert(image_tags + card_tag =~= card_tag);
            assert(image_tags + card_tag + layout == card_tag + "summary"@);
        },
    }
}

proof fn lemma_page_parts(
    title: Seq<char>,
    description: Seq<char>,
    redirect: Seq<char>,
    site: Seq<char>,
    image_tags: Seq<char>,
    layout: Seq<char>,
    twitter_image: Seq<char>,
    page: Seq<char>,
)
    requires
        page
            == "<!DOCTYPE html>\n<html lang=\"en\">\n<head>\n<meta charset=\"UTF-8\">\n<title>"@ + title
            + "</title>\n<meta name=\"description\" content=\""@ + description
            + "\">\n<meta property=\"og:type\" content=\"website\">\n<meta property=\"og:site_name\" content=\""@
            + site + "\">\n<meta property=\"og:title\" content=\""@ + title
            + "\">\n<meta property=\"og:description\" content=\""@ + description + "\">\n"@
            + image_tags + "<meta name=\"twitter:card\" content=\""@ + layout
            + "\">\n<meta name=\"twitter:title\" content=\""@ + title
            + "\">\n<meta name=\"twitter:description\" content=\""@ + description + "\">\n"@
            + twitter_image + "<meta http-equiv=\"refresh\" content=\"0; url="@ + redirect
            + "\">\n</head>\n<body>\n<p><a href=\""@ + redirect + "\">Continue to "@ + title
            + "</a></p>\n</body>\n</html>\n"@,
    ensures
        has_part(
            page,
            "<title>"@ + title + "</title>\n<meta name=\"description\" content=\""@ + description
                + "\">"@,
        ),
        has_part(
            page,
            "<meta property=\"og:title\" content=\""@ + title
                + "\">\n<meta property=\"og:description\" content=\""@ + description + "\">\n"@ + (
            image_tags + "<meta name=\"twitter:card\" content=\""@ + layout)
                + "\">\n<meta name=\"twitter:title\" content=\""@ + title
                + "\">\n<meta name=\"twitter:description\" content=\""@ + description + "\">\n"@
                + twitter_image + "<meta http-equiv=\"refresh\""@,
        ),
{
    lemma_page_literals();
    let start = "<!DOCTYPE html>\n<html lang=\"en\">\n<head>\n<meta charset=\"UTF-8\">\n"@;
    let t0 = "<title>"@;
    let l2 = "</title>\n<meta name=\"description\" content=\""@;
    let close = "\">"@;
    let l3 =
        "\n<meta property=\"og:type\" content=\"website\">\n<meta property=\"og:site_name\" content=\""@;
    let end = "\">\n"@;
    let l4 = "<meta property=\"og:title\" content=\""@;
    let l5 = "\">\n<meta property=\"og:description\" content=\""@;
    let l6 = "<meta name=\"twitter:card\" content=\""@;
    let l7 = "\">\n<meta name=\"twitter:title\" content=\""@;
    let l8 = "\">\n<meta name=\"twitter:description\" content=\""@;
    let refresh = "<meta http-equiv=\"refresh\""@;
    let l9 = " content=\"0; url="@;
    let tail = redirect + "\">\n</head>\n<body>\n<p><a href=\""@ + redirect + "\">Continue to "@
        + title + "</a></p>\n</body>\n</html>\n"@;
    let first = t0 + title + l2 + description + close;
    let second = l4 + title + l5 + description + end + (image_tags + l6 + layout) + l7 + title + l8
        + description + end + twitter_image + refresh;
    let between = l3 + site + end;
    assert forall|a: Seq<char>, b: Seq<char>, c: Seq<char>| #[trigger]
        (a + (b + c)) == a + b + c by {
        assert(a + (b + c) =~= a + b + c);
    }
    let page_by_first = start + first + (between + second + l9 + tail);
    let page_by_second = (start + first + between) + second + (l9 + tail);
    assert(page_by_first == page);
    assert(page_by_second == page);
}

} // verus!
