use simplealbum::path::{file_name, join_path, parent, path_within, strip_base, with_file_name};
use simplealbum::util::{
    is_ancestor, is_image_file, is_media_file, is_video_file, media_type, normalize_rel_path,
    path_to_resolve, resolve_album_path, resolve_album_path_checked, thumb_name, validate_path,
    PathError,
};

#[test]
fn validate_path_accepts_relative_paths() {
    assert_eq!(validate_path(""), Some(String::new()));
    assert_eq!(
        validate_path("1970-79/1970/summer holiday"),
        Some("1970-79/1970/summer holiday".to_string())
    );
    // Two dots inside a name are normal characters, not traversal.
    assert_eq!(validate_path("a..b/c"), Some("a..b/c".to_string()));
    assert_eq!(validate_path("."), Some(".".to_string()));
}

#[test]
fn validate_path_rejects_traversal_and_absolute_paths() {
    assert_eq!(validate_path(".."), None);
    assert_eq!(validate_path("../secret"), None);
    assert_eq!(validate_path("1970/../../etc"), None);
    assert_eq!(validate_path("/etc/passwd"), None);
    assert_eq!(validate_path("/"), None);
    assert_eq!(validate_path("//server/share"), None);
}

#[test]
fn validate_path_rejects_windows_drive_prefixes() {
    assert_eq!(validate_path("C:/Windows"), None);
    assert_eq!(validate_path("C:\\Windows"), None);
}

#[test]
fn validation_puts_paths_in_canonical_form() {
    assert_eq!(validate_path("1970-79/"), Some("1970-79".to_string()));
    assert_eq!(validate_path("1970-79//"), Some("1970-79".to_string()));
    assert_eq!(validate_path("./1970-79//1970/./a.jpg"), Some("1970-79/1970/a.jpg".to_string()));
    assert_eq!(validate_path("./C:/x"), None);
    for path in ["", "a", "a/b", "a//b/", "./a", "."] {
        let once = normalize_rel_path(path);
        assert_eq!(normalize_rel_path(&once), once);
        assert_eq!(validate_path(&once), Some(once.clone()));
    }
}

#[test]
fn resolve_reports_rejected_separately_from_not_found() {
    let root = "/srv/photos".to_string();
    let found = |path: &str| Some(path.to_string());

    // Malformed or escaping paths are rejected outright.
    assert_eq!(
        resolve_album_path_checked("..", found("/srv"), found(&root)),
        Err(PathError::Rejected)
    );
    assert_eq!(
        resolve_album_path_checked("/etc/passwd", found("/etc/passwd"), found(&root)),
        Err(PathError::Rejected)
    );
    assert_eq!(path_to_resolve(&root, ".."), Err(PathError::Rejected));

    // Well-formed but absent paths are not found.
    assert_eq!(path_to_resolve(&root, "missing.jpg"), Ok("/srv/photos/missing.jpg".to_string()));
    assert_eq!(
        resolve_album_path_checked("missing.jpg", None, found(&root)),
        Err(PathError::NotFound)
    );

    // An existing path resolves, and the form without a reason still works.
    let resolved =
        resolve_album_path_checked("album", found("/srv/photos/album"), found(&root)).unwrap();
    assert!(resolved.ends_with("album"));
    assert_eq!(
        resolve_album_path("album", found("/srv/photos/album"), found(&root)),
        Some(resolved)
    );
    assert_eq!(resolve_album_path("missing.jpg", None, found(&root)), None);
}

#[test]
fn a_link_out_of_the_album_is_rejected() {
    assert_eq!(
        resolve_album_path_checked(
            "link",
            Some("/srv/other".to_string()),
            Some("/srv/photos".to_string())
        ),
        Err(PathError::Rejected)
    );
    // A sibling whose name merely begins like the root is outside too.
    assert_eq!(
        resolve_album_path_checked(
            "link",
            Some("/srv/photos2/x".to_string()),
            Some("/srv/photos".to_string())
        ),
        Err(PathError::Rejected)
    );
}

#[test]
fn is_ancestor_matches_on_path_boundaries_only() {
    assert!(is_ancestor("", "1970-79/1970"));
    assert!(is_ancestor("1970-79", "1970-79/1970"));
    assert!(is_ancestor("1970-79", "1970-79"));
    // A prefix that is not a parent folder must not match.
    assert!(!is_ancestor("1970", "19700"));
    assert!(!is_ancestor("1970-79/1970", "1970-79"));
}

#[test]
fn ancestors_are_ordered() {
    assert!(is_ancestor("a", "a/b"));
    assert!(is_ancestor("a/b", "a/b/c"));
    assert!(is_ancestor("a", "a/b/c"));
    assert!(!is_ancestor("a/b", "a"));
    assert!(is_ancestor("a/b", "a/b"));
}

#[test]
fn thumb_names_are_derived_from_the_stem() {
    assert_eq!(thumb_name("beach.JPG"), "beach_thumb.jpg");
    assert_eq!(thumb_name("logo.png"), "logo_thumb.png");
    assert_eq!(thumb_name("picture.webp"), "picture_thumb.webp");
    // Videos always get a JPEG frame, whatever the container.
    assert_eq!(thumb_name("clip.MOV"), "clip_thumb.jpg");
    assert_eq!(thumb_name("holiday.mkv"), "holiday_thumb.jpg");
}

#[test]
fn videos_with_the_same_stem_share_a_thumbnail() {
    assert_eq!(thumb_name("clip.mp4"), thumb_name("clip.mov"));
    assert_eq!(thumb_name("photo.JPG"), thumb_name("photo.jpg"));
    assert_ne!(thumb_name("photo.png"), thumb_name("photo.jpg"));
}

#[test]
fn media_types_are_classified_by_extension() {
    assert!(is_media_file("a.jpg"));
    assert!(is_media_file("a.MP4"));
    assert!(!is_media_file("notes.txt"));
    assert!(!is_media_file("noextension"));
    assert_eq!(media_type("a.jpg"), "image");
    assert_eq!(media_type("a.mp4"), "video");
}

#[test]
fn images_and_videos_are_told_apart() {
    for name in ["a.jpg", "a.jpeg", "a.png", "a.webp", "a.WebP"] {
        assert!(is_image_file(name) && !is_video_file(name), "{name}");
    }
    for name in ["a.mp4", "a.mov", "a.avi", "a.webm", "a.mkv", "a.MKV"] {
        assert!(is_video_file(name) && !is_image_file(name), "{name}");
    }
    // The Kelvin sign is an uppercase letter k.
    assert!(is_video_file("a.m\u{212a}v"));
    assert!(!is_image_file("a.heic"));
}

#[test]
fn paths_follow_the_platform_rules() {
    assert_eq!(join_path("/srv", "a/b"), "/srv/a/b");
    assert_eq!(join_path("/srv/", "a"), "/srv/a");
    assert_eq!(join_path("/srv", "/etc"), "/etc");
    assert_eq!(file_name("/srv/a.jpg"), Some("a.jpg".to_string()));
    assert_eq!(file_name("a/.."), None);
    assert_eq!(parent("/srv/a.jpg"), Some("/srv".to_string()));
    assert_eq!(parent("a.jpg"), Some(String::new()));
    assert_eq!(parent("/"), None);
    assert_eq!(with_file_name("/srv/a.jpg", "b.jpg"), "/srv/b.jpg");
    assert!(path_within("/srv/photos/a", "/srv/photos"));
    assert!(!path_within("/srv/photos2", "/srv/photos"));
    assert_eq!(strip_base("/srv/photos/a/b", "/srv/photos"), Some("a/b".to_string()));
    assert_eq!(strip_base("/srv/other", "/srv/photos"), None);
}

#[test]
fn paths_agree_with_the_standard_library() {
    let cases = [
        "", "/", ".", "..", "a", "a/", "a/b", "a//b", "a/./b", "./a", "../a", "/a", "/a/b/", "//a",
        "a/..", "/..", "a/b/.", "a/b/..", ".hidden", "a.b.c", ".a.b",
    ];
    for case in cases {
        let path = std::path::Path::new(case);
        let text = |p: &std::path::Path| p.to_string_lossy().into_owned();
        assert_eq!(parent(case), path.parent().map(text), "parent of {case:?}");
        assert_eq!(
            file_name(case),
            path.file_name().map(|n| n.to_string_lossy().into_owned()),
            "file name of {case:?}"
        );
        for other in cases {
            let base = std::path::Path::new(other);
            assert_eq!(
                path_within(case, other),
                path.starts_with(base),
                "{case:?} within {other:?}"
            );
            assert_eq!(
                strip_base(case, other),
                path.strip_prefix(base).ok().map(text),
                "{case:?} without {other:?}"
            );
            assert_eq!(join_path(other, case), text(&base.join(path)), "{other:?} and {case:?}");
        }
    }
}
