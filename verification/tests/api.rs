use simplealbum::api::{
    album_path, authorize, finish_set_cover, get_album, set_cover, AlbumQuery, CoverFacts,
    CoverHeaders, Status,
};
use simplealbum::config::{
    AdminConfig, AlbumConfig, Config, ServerConfig, StateConfig, WorkerConfig,
};
use simplealbum::covers::CoverCache;
use simplealbum::db::Write;
use simplealbum::models::SetCoverRequest;
use simplealbum::util::validate_path;

const TEST_ADMIN_KEY: &str = "test-admin-key";

fn config_for(root: &str, db_path: &str) -> Config {
    Config {
        server: ServerConfig {
            bind: "127.0.0.1:0".to_string(),
            public_url: "https://album.test/photos/".to_string(),
            site_name: "Test Album".to_string(),
        },
        album: AlbumConfig { root: root.to_string() },
        state: StateConfig { db_path: db_path.to_string() },
        worker: WorkerConfig { threads: 1 },
        admin: AdminConfig { key: TEST_ADMIN_KEY.to_string() },
    }
}

fn config() -> Config {
    config_for("/srv/photos", "/srv/album.db")
}

fn admin_headers() -> CoverHeaders {
    CoverHeaders { admin_key: Some(TEST_ADMIN_KEY.to_string()), origin: None }
}

fn body(image_path: &str, targets: &[&str]) -> SetCoverRequest {
    SetCoverRequest {
        image_path: image_path.to_string(),
        targets: targets.iter().map(|t| t.to_string()).collect(),
    }
}

/// What the file system says in an album that holds these files and folders.
fn facts(request: &SetCoverRequest, files: &[&str], dirs: &[&str]) -> CoverFacts {
    let image = validate_path(&request.image_path).unwrap_or_default();
    let is_file = files.contains(&image.as_str());
    CoverFacts {
        canonical: is_file.then_some(format!("/srv/photos/{image}")),
        canonical_root: Some("/srv/photos".to_string()),
        is_file,
        target_is_dir: request
            .targets
            .iter()
            .map(|t| match validate_path(t) {
                Some(t) => t.is_empty() || dirs.contains(&t.as_str()),
                None => false,
            })
            .collect(),
    }
}

fn covers(writes: &[Write]) -> Vec<(String, String)> {
    writes
        .iter()
        .map(|w| match w {
            Write::SetCover { folder, image } => (folder.clone(), image.clone()),
            other => panic!("unexpected change {other:?}"),
        })
        .collect()
}

#[test]
fn set_cover_stores_canonical_paths() {
    let request = body("./1970-79/1970/a.jpg", &["1970-79/", "1970-79//", ""]);
    let found = facts(&request, &["1970-79/1970/a.jpg"], &["1970-79", "1970-79/1970"]);
    let decision = set_cover(&admin_headers(), &config(), &request, found);
    let answer = finish_set_cover(&decision, true, &mut CoverCache::new());
    assert_eq!(answer.unwrap().code(), 204);
    let writes = decision.unwrap();
    let expected = "1970-79/1970/a.jpg".to_string();
    let stored = covers(&writes);
    assert_eq!(stored[0], ("1970-79".to_string(), expected.clone()));
    assert_eq!(
        stored[2],
        (String::new(), expected.clone()),
        "the album root is a valid target"
    );
    // No other form of a path is written.
    assert!(stored.iter().all(|(folder, image)| folder != "1970-79/" && *image == expected));
}

#[test]
fn set_cover_rejects_a_target_that_is_not_an_ancestor() {
    let request = body("a/photo.jpg", &["b"]);
    let found = facts(&request, &["a/photo.jpg"], &["a", "b"]);
    let result = set_cover(&admin_headers(), &config(), &request, found);
    assert!(matches!(result, Err(Status::BadRequest)));
}

#[test]
fn set_cover_applies_nothing_when_any_target_is_invalid() {
    // `a` is valid, `b` is not an ancestor: neither may be written.
    let request = body("a/photo.jpg", &["a", "b"]);
    let found = facts(&request, &["a/photo.jpg"], &["a", "b"]);
    let result = set_cover(&admin_headers(), &config(), &request, found);
    assert!(matches!(result, Err(Status::BadRequest)));
}

#[test]
fn set_cover_requires_the_admin_key() {
    let request = body("a/photo.jpg", &[""]);
    let headers = CoverHeaders { admin_key: None, origin: None };
    let found = facts(&request, &["a/photo.jpg"], &["a"]);
    let result = set_cover(&headers, &config(), &request, found);
    assert!(matches!(result, Err(Status::Forbidden)));
}

#[test]
fn set_cover_wants_an_existing_media_file_and_existing_targets() {
    let refused = |request: SetCoverRequest| {
        let found = facts(&request, &["a/photo.jpg", "a/notes.txt"], &["a"]);
        set_cover(&admin_headers(), &config(), &request, found).err().unwrap()
    };
    assert_eq!(refused(body("../x.jpg", &["a"])), Status::BadRequest);
    assert_eq!(refused(body("a/gone.jpg", &["a"])), Status::NotFound);
    assert_eq!(refused(body("a/notes.txt", &["a"])), Status::NotFound);
    assert_eq!(refused(body("a/photo.jpg", &[".."])), Status::BadRequest);
    // The image is judged before the targets.
    assert_eq!(refused(body("a/gone.jpg", &[".."])), Status::NotFound);
    // The first target that cannot have the cover decides.
    let request = body("a/b/photo.jpg", &["a", "a/b", ".."]);
    let mut found = facts(&request, &["a/b/photo.jpg"], &["a/b"]);
    assert_eq!(found.target_is_dir, vec![false, true, false]);
    found.target_is_dir[0] = false;
    assert_eq!(
        set_cover(&admin_headers(), &config(), &request, found).err(),
        Some(Status::NotFound)
    );
    // An image behind a link out of the album is rejected.
    let request = body("a/photo.jpg", &["a"]);
    let mut outside = facts(&request, &["a/photo.jpg"], &["a"]);
    outside.canonical = Some("/etc/photo.jpg".to_string());
    assert_eq!(
        set_cover(&admin_headers(), &config(), &request, outside).err(),
        Some(Status::BadRequest)
    );
    // No targets is no error, and no change.
    let request = body("a/photo.jpg", &[]);
    let found = facts(&request, &["a/photo.jpg"], &["a"]);
    assert_eq!(set_cover(&admin_headers(), &config(), &request, found).unwrap().len(), 0);
}

#[test]
fn only_the_key_and_the_own_origin_authorise() {
    let with = |key: Option<&str>, origin: Option<&str>| CoverHeaders {
        admin_key: key.map(str::to_string),
        origin: origin.map(str::to_string),
    };
    let cfg = config();
    assert!(authorize(&with(Some(TEST_ADMIN_KEY), None), &cfg));
    assert!(authorize(&with(Some(TEST_ADMIN_KEY), Some("")), &cfg));
    assert!(authorize(&with(Some(TEST_ADMIN_KEY), Some("https://album.test")), &cfg));
    assert!(authorize(&with(Some(TEST_ADMIN_KEY), Some("HTTPS://Album.Test")), &cfg));
    assert!(!authorize(&with(Some(TEST_ADMIN_KEY), Some("https://evil.test")), &cfg));
    assert!(!authorize(&with(Some(TEST_ADMIN_KEY), Some("https://album.test/photos")), &cfg));
    assert!(!authorize(&with(Some("Test-admin-key"), None), &cfg));
    assert!(!authorize(&with(Some(""), None), &cfg));
    assert!(!authorize(&with(None, Some("https://album.test")), &cfg));
    let mut keyless = config();
    keyless.admin.key = String::new();
    assert!(!authorize(&with(Some(""), None), &keyless));
    assert!(!authorize(&with(None, None), &keyless));
}

#[test]
fn an_absent_folder_is_not_found_and_a_rejected_one_a_bad_request() {
    let query = |path: &str| AlbumQuery { path: path.to_string() };
    assert_eq!(album_path(&query("a//b/")), Ok("a/b".to_string()));
    assert_eq!(album_path(&query("../a")), Err(Status::BadRequest));
    let root = || Some("/srv/photos".to_string());
    let at = |p: &str| Some(p.to_string());
    assert_eq!(
        get_album("a", at("/srv/photos/a"), root(), true),
        Ok("/srv/photos/a".to_string())
    );
    assert_eq!(get_album("a", at("/srv/photos/a"), root(), false), Err(Status::NotFound));
    assert_eq!(get_album("a", None, root(), false), Err(Status::NotFound));
    assert_eq!(get_album("a", at("/etc"), root(), true), Err(Status::BadRequest));
    assert_eq!(
        [Status::BadRequest, Status::Forbidden, Status::NotFound, Status::Internal]
            .map(Status::code),
        [400, 403, 404, 500]
    );
}

#[test]
fn a_cover_that_is_set_drops_the_cached_covers() {
    let old = Some("thumbs/old_thumb.jpg".to_string());
    let mut cache = CoverCache::new();
    cache.insert("a".to_string(), old.clone());
    let request = body("a/photo.jpg", &["a"]);
    let found = facts(&request, &["a/photo.jpg"], &["a"]);
    let decision = set_cover(&admin_headers(), &config(), &request, found);

    // A failed write is an error, and leaves what is cached.
    assert!(matches!(finish_set_cover(&decision, false, &mut cache), Err(Status::Internal)));
    assert_eq!(cache.get("a"), Some(old));

    assert!(matches!(finish_set_cover(&decision, true, &mut cache), Ok(Status::NoContent)));
    assert_eq!(cache.get("a"), None);
}

#[test]
fn a_refused_cover_leaves_the_cached_covers() {
    let mut cache = CoverCache::new();
    cache.insert("a".to_string(), None);
    for refusal in [Status::BadRequest, Status::Forbidden, Status::NotFound] {
        let answer = finish_set_cover(&Err(refusal), true, &mut cache);
        assert_eq!(answer.unwrap_err().code(), refusal.code());
        assert_eq!(cache.get("a"), Some(None));
    }
}
