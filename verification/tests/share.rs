use simplealbum::api::{ShareQuery, Status};
use simplealbum::config::ServerConfig;
use simplealbum::share::{
    build_share_card, share_page, share_request, site_url, thumb_rel, ShareCard, ShareFacts,
};

fn server() -> ServerConfig {
    ServerConfig {
        bind: "127.0.0.1:0".to_string(),
        public_url: "https://album.test/photos/".to_string(),
        site_name: "Test Album".to_string(),
    }
}

fn query(path: &str, photo: &str) -> ShareQuery {
    ShareQuery { path: path.to_string(), photo: photo.to_string() }
}

fn facts() -> ShareFacts {
    ShareFacts {
        canonical: Some("/srv/photos/x".to_string()),
        canonical_root: Some("/srv/photos".to_string()),
        is_expected: true,
        stored: None,
        stored_exists: false,
        computed: None,
        thumb_exists: false,
    }
}

#[test]
fn a_share_request_names_a_folder_or_a_bare_file() {
    let target = share_request(&query("1970-79/", " a b.jpg ")).unwrap();
    assert_eq!((target.rel.as_str(), target.photo.as_str()), ("1970-79", "a b.jpg"));
    let folder = share_request(&query("", "  ")).unwrap();
    assert_eq!((folder.rel.as_str(), folder.photo.as_str()), ("", ""));
    for (path, photo) in [("..", ""), ("a", "../b"), ("a", "b/c.jpg"), ("a", "b\\c.jpg"), ("a", "..")] {
        assert!(matches!(share_request(&query(path, photo)), Err(Status::BadRequest)), "{path} {photo}");
    }
}

#[test]
fn a_folder_card_carries_its_cover() {
    let mut f = facts();
    f.computed = Some("thumbs/a b_thumb.jpg".to_string());
    let card = build_share_card(&server(), "1970-79/summer holiday", "", &f).unwrap();
    assert_eq!(card.title, "summer holiday");
    assert_eq!(card.description, "Photos and videos in 1970-79 / summer holiday");
    assert_eq!(
        card.image_url.as_deref(),
        Some("https://album.test/photoalbum/1970-79/summer%20holiday/thumbs/a%20b_thumb.jpg")
    );
    assert_eq!(card.redirect, "https://album.test/photos/#path=1970-79%2Fsummer%20holiday");

    f.stored = Some("1970-79/summer holiday/deep/c.jpg".to_string());
    f.stored_exists = true;
    let stored = build_share_card(&server(), "1970-79/summer holiday", "", &f).unwrap();
    assert_eq!(
        stored.image_url.as_deref(),
        Some("https://album.test/photoalbum/1970-79/summer%20holiday/deep/thumbs/c_thumb.jpg")
    );
}

#[test]
fn the_album_root_is_shared_under_the_site_name() {
    let card = build_share_card(&server(), "", "", &facts()).unwrap();
    assert_eq!(card.title, "Test Album");
    assert_eq!(card.description, "Browse our photo and video collection by folder.");
    assert_eq!(card.image_url, None);
    assert_eq!(card.redirect, "https://album.test/photos/#path=");
}

#[test]
fn a_photo_card_prefers_the_thumbnail() {
    let mut f = facts();
    let original = build_share_card(&server(), "a", "b.jpg", &f).unwrap();
    assert_eq!(original.title, "b.jpg");
    assert_eq!(original.description, "From a");
    assert_eq!(original.image_url.as_deref(), Some("https://album.test/photoalbum/a/b.jpg"));
    assert_eq!(original.redirect, "https://album.test/photoalbum/a/b.jpg");
    f.thumb_exists = true;
    let thumb = build_share_card(&server(), "a", "b.jpg", &f).unwrap();
    assert_eq!(thumb.image_url.as_deref(), Some("https://album.test/photoalbum/a/thumbs/b_thumb.jpg"));
    let top = build_share_card(&server(), "", "b.jpg", &f).unwrap();
    assert_eq!(top.description, "Test Album");
    assert_eq!(thumb_rel("a", "b.MP4"), "a/thumbs/b_thumb.jpg");
}

#[test]
fn what_does_not_exist_is_not_shared() {
    let mut f = facts();
    f.is_expected = false;
    assert!(matches!(build_share_card(&server(), "a", "", &f), Err(Status::NotFound)));
    assert!(matches!(build_share_card(&server(), "a", "b.jpg", &f), Err(Status::NotFound)));
    let mut gone = facts();
    gone.canonical = None;
    assert!(matches!(build_share_card(&server(), "a", "", &gone), Err(Status::NotFound)));
    let mut outside = facts();
    outside.canonical = Some("/etc".to_string());
    assert!(matches!(build_share_card(&server(), "a", "", &outside), Err(Status::NotFound)));
    // Only photos and videos are shared by name.
    assert!(matches!(build_share_card(&server(), "a", "b.txt", &facts()), Err(Status::NotFound)));
}

#[test]
fn a_share_page_is_escaped_and_complete() {
    let card = ShareCard {
        title: "Tom & \"Jo\"".to_string(),
        description: "From <here>".to_string(),
        image_url: Some("https://x/a'b.jpg".to_string()),
        redirect: "https://x/#path=a&b".to_string(),
    };
    let page = share_page(&card, "Bob's");
    let expected = "<!DOCTYPE html>\n\
<html lang=\"en\">\n\
<head>\n\
<meta charset=\"UTF-8\">\n\
<title>Tom &amp; &quot;Jo&quot;</title>\n\
<meta name=\"description\" content=\"From &lt;here&gt;\">\n\
<meta property=\"og:type\" content=\"website\">\n\
<meta property=\"og:site_name\" content=\"Bob&#39;s\">\n\
<meta property=\"og:title\" content=\"Tom &amp; &quot;Jo&quot;\">\n\
<meta property=\"og:description\" content=\"From &lt;here&gt;\">\n\
<meta property=\"og:image\" content=\"https://x/a&#39;b.jpg\">\n\
<meta property=\"og:image:alt\" content=\"Tom &amp; &quot;Jo&quot;\">\n\
<meta name=\"twitter:card\" content=\"summary_large_image\">\n\
<meta name=\"twitter:title\" content=\"Tom &amp; &quot;Jo&quot;\">\n\
<meta name=\"twitter:description\" content=\"From &lt;here&gt;\">\n\
<meta name=\"twitter:image\" content=\"https://x/a&#39;b.jpg\">\n\
<meta http-equiv=\"refresh\" content=\"0; url=https://x/#path=a&amp;b\">\n\
</head>\n\
<body>\n\
<p><a href=\"https://x/#path=a&amp;b\">Continue to Tom &amp; &quot;Jo&quot;</a></p>\n\
</body>\n\
</html>\n";
    assert_eq!(page, expected);
}

#[test]
fn a_card_without_an_image_has_no_image_tags() {
    let card = ShareCard {
        title: "a".to_string(),
        description: "b".to_string(),
        image_url: None,
        redirect: "c".to_string(),
    };
    let page = share_page(&card, "s");
    assert!(!page.contains("og:image"));
    assert!(!page.contains("twitter:image"));
    assert!(page.contains("<meta name=\"twitter:card\" content=\"summary\">\n"));
}

#[test]
fn the_site_address_ends_in_one_slash() {
    assert_eq!(site_url("https://a/b///"), "https://a/b/");
    assert_eq!(site_url("https://a/b"), "https://a/b/");
    assert_eq!(site_url(""), "/");
}
