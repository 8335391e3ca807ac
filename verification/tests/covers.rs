use simplealbum::cache::Lookup;
use simplealbum::covers::{CoverCache, MAX_ENTRIES};

#[test]
fn a_computed_value_is_reused_until_invalidated() {
    let mut cache = CoverCache::new();
    let mut calls = 0;

    let first = cache.get_or_compute("a/b", || {
        calls += 1;
        Some("thumbs/x_thumb.jpg".to_string())
    });
    assert_eq!(first, Some("thumbs/x_thumb.jpg".to_string()));
    assert_eq!(calls, 1);

    let second = cache.get_or_compute("a/b", || {
        calls += 1;
        Some("thumbs/other_thumb.jpg".to_string())
    });
    assert_eq!(second, Some("thumbs/x_thumb.jpg".to_string()));
    assert_eq!(calls, 1, "a live entry must not be recomputed");

    cache.invalidate();
    assert_eq!(cache.get("a/b"), None, "invalidation must drop old entries");

    let third = cache.get_or_compute("a/b", || {
        calls += 1;
        None
    });
    assert_eq!(third, None);
    assert_eq!(calls, 2);
}

#[test]
fn folders_are_cached_independently() {
    let mut cache = CoverCache::new();
    assert_eq!(
        cache.get_or_compute("a", || Some("thumbs/a.jpg".into())),
        Some("thumbs/a.jpg".into())
    );
    assert_eq!(cache.get_or_compute("b", || None), None);
    assert_eq!(cache.get("a"), Some(Some("thumbs/a.jpg".to_string())));
    assert_eq!(cache.get("b"), Some(None));
    assert_eq!(cache.get("c"), None);
}

#[test]
fn a_search_overtaken_by_a_change_is_ignored() {
    let mut cache = CoverCache::new();
    let ticket = cache.generation();
    cache.invalidate();
    cache.insert_under(ticket, "a".to_string(), Some("thumbs/old.jpg".to_string()));
    assert_eq!(cache.get("a"), None);
}

#[test]
fn stale_entries_are_pruned_before_live_ones() {
    let mut cache = CoverCache::new();
    for i in 0..MAX_ENTRIES - 1 {
        cache.insert(format!("old{i}"), None);
    }
    cache.invalidate();
    cache.insert("live".to_string(), Some("thumbs/l.jpg".to_string()));
    // The cache is full, but all but one of its entries are stale.
    cache.insert("new".to_string(), None);
    assert_eq!(cache.get("live"), Some(Some("thumbs/l.jpg".to_string())));
    assert_eq!(cache.get("new"), Some(None));
    assert_eq!(cache.get("old0"), None);
}

#[test]
fn a_cache_full_of_live_entries_is_dropped() {
    let mut cache = CoverCache::new();
    for i in 0..MAX_ENTRIES {
        cache.insert(format!("{i}"), None);
    }
    assert_eq!(cache.get("0"), Some(None));
    cache.insert("new".to_string(), None);
    assert_eq!(cache.get("0"), None);
    assert_eq!(cache.get("new"), Some(None));
}

#[test]
fn a_search_is_published_by_its_ticket() {
    let mut cache = CoverCache::new();
    let found = Some("thumbs/x_thumb.jpg".to_string());
    let Lookup::Miss(ticket) = cache.begin("a") else { panic!("nothing is cached yet") };
    cache.publish(ticket, "a", &found);
    assert!(matches!(cache.begin("a"), Lookup::Hit(cover) if cover == found));

    // A change during the search makes its result stale.
    let Lookup::Miss(late) = cache.begin("b") else { panic!("nothing is cached yet") };
    cache.invalidate();
    cache.publish(late, "b", &found);
    assert!(matches!(cache.begin("b"), Lookup::Miss(now) if now != late));
    // A ticket that was never given out is void.
    cache.publish(cache.generation() + 1, "b", &found);
    cache.invalidate();
    assert_eq!(cache.get("b"), None);
}
