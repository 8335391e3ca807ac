use rusqlite::types::{ToSql, ToSqlOutput, Value};
use rusqlite::{Connection, OptionalExtension};
use simplealbum::db::{
    cover_queries, cover_query, metadata_queries, metadata_query, normalize_stored_paths,
    placeholders, statement, Param, PhotoMeta, Statement, StoredCover, Write, ADD_DURATION,
    ADD_PROBED, ALL_COVERS, CLEAR_COVERS, INSERT_COVER, QUERY_CHUNK, SCHEMA,
};
use simplealbum::worker::process_delete;
use std::collections::HashMap;

struct Bound<'a>(&'a Param);

impl ToSql for Bound<'_> {
    fn to_sql(&self) -> rusqlite::Result<ToSqlOutput<'_>> {
        match self.0 {
            Param::Text(s) => s.to_sql(),
            Param::Signed(n) => n.to_sql(),
            Param::Unsigned(n) => n.to_sql(),
            Param::Null => Ok(ToSqlOutput::Owned(Value::Null)),
        }
    }
}

fn bound(statement: &Statement) -> impl rusqlite::Params + '_ {
    rusqlite::params_from_iter(statement.params.iter().map(Bound))
}

struct Db {
    conn: Connection,
}

impl Db {
    fn open_in_memory() -> Self {
        let conn = Connection::open_in_memory().unwrap();
        conn.execute_batch(SCHEMA).unwrap();
        let _ = conn.execute(ADD_DURATION, []);
        let _ = conn.execute(ADD_PROBED, []);
        Db { conn }
    }

    fn write(&self, write: Write) {
        let s = statement(&write, 1000);
        self.conn.execute(&s.sql, bound(&s)).unwrap();
    }

    fn set_cover(&self, folder: &str, image: &str) {
        self.write(Write::SetCover { folder: folder.to_string(), image: image.to_string() });
    }

    fn set_metadata(
        &self,
        photo: &str,
        width: u32,
        height: u32,
        duration: Option<u64>,
        modified: i64,
        probed: bool,
    ) {
        let meta = PhotoMeta { width, height, duration, modified, probed };
        self.write(Write::SetMetadata { photo: photo.to_string(), meta });
    }

    fn delete_metadata_under(&self, folder: &str) {
        self.write(Write::DeleteMetadataUnder { folder: folder.to_string() });
    }

    fn get_cover(&self, folder: &str) -> Option<String> {
        let s = cover_query(folder);
        self.conn.query_row(&s.sql, bound(&s), |row| row.get(0)).optional().unwrap()
    }

    fn get_covers(&self, folders: &[String]) -> HashMap<String, String> {
        let mut found = HashMap::new();
        for s in cover_queries(&folders.to_vec()) {
            let mut query = self.conn.prepare(&s.sql).unwrap();
            let rows = query
                .query_map(bound(&s), |row| Ok((row.get(0)?, row.get(1)?)))
                .unwrap();
            found.extend(rows.map(|row| row.unwrap()));
        }
        found
    }

    fn get_metadata(&self, photo: &str) -> Option<PhotoMeta> {
        let s = metadata_query(photo);
        self.conn
            .query_row(&s.sql, bound(&s), |row| {
                Ok(PhotoMeta {
                    width: row.get(0)?,
                    height: row.get(1)?,
                    duration: row.get(2)?,
                    modified: row.get(3)?,
                    probed: row.get::<_, i64>(4)? != 0,
                })
            })
            .optional()
            .unwrap()
    }

    fn get_metadata_for(&self, photos: &[String]) -> HashMap<String, PhotoMeta> {
        let mut found = HashMap::new();
        for s in metadata_queries(&photos.to_vec()) {
            let mut query = self.conn.prepare(&s.sql).unwrap();
            let rows = query
                .query_map(bound(&s), |row| {
                    Ok((
                        row.get::<_, String>(0)?,
                        PhotoMeta {
                            width: row.get(1)?,
                            height: row.get(2)?,
                            duration: row.get(3)?,
                            modified: row.get(4)?,
                            probed: row.get::<_, i64>(5)? != 0,
                        },
                    ))
                })
                .unwrap();
            found.extend(rows.map(|row| row.unwrap()));
        }
        found
    }

    fn stored_covers(&self) -> Vec<StoredCover> {
        let mut query = self.conn.prepare(ALL_COVERS).unwrap();
        let rows = query
            .query_map([], |row| {
                Ok(StoredCover { folder: row.get(0)?, image: row.get(1)?, updated: row.get(2)? })
            })
            .unwrap();
        rows.map(|row| row.unwrap()).collect()
    }

    fn normalize_stored_paths(&self) -> usize {
        let repair = normalize_stored_paths(&self.stored_covers());
        if let Some(table) = repair.table {
            self.conn.execute(CLEAR_COVERS, []).unwrap();
            for row in table {
                self.conn
                    .execute(INSERT_COVER, (&row.folder, &row.image, row.updated))
                    .unwrap();
            }
        }
        repair.changed
    }
}

fn seed(db: &Db, paths: &[&str]) {
    for path in paths {
        db.set_metadata(path, 400, 300, None, 1, true);
    }
}

fn meta(
    width: u32,
    height: u32,
    duration: Option<u64>,
    modified: i64,
    probed: bool,
) -> PhotoMeta {
    PhotoMeta { width, height, duration, modified, probed }
}

#[test]
fn metadata_round_trips() {
    let db = Db::open_in_memory();
    assert_eq!(db.get_metadata("a/b.jpg"), None);
    db.set_metadata("a/b.jpg", 400, 300, Some(12), 1234, true);
    assert_eq!(db.get_metadata("a/b.jpg"), Some(meta(400, 300, Some(12), 1234, true)));
    // A second write updates in place rather than duplicating.
    db.set_metadata("a/b.jpg", 100, 50, None, 9999, false);
    assert_eq!(db.get_metadata("a/b.jpg"), Some(meta(100, 50, None, 9999, false)));
    db.write(Write::DeleteMetadata { photo: "a/b.jpg".to_string() });
    assert_eq!(db.get_metadata("a/b.jpg"), None);
}

#[test]
fn batched_metadata_matches_the_point_lookup() {
    let db = Db::open_in_memory();
    db.set_metadata("a/1.jpg", 10, 20, None, 5, true);
    db.set_metadata("a/2.mp4", 30, 40, Some(7), 6, true);

    let wanted =
        vec!["a/1.jpg".to_string(), "a/2.mp4".to_string(), "a/missing.jpg".to_string()];
    let found = db.get_metadata_for(&wanted);

    assert_eq!(found.len(), 2, "missing rows are absent, not defaulted");
    assert_eq!(found.get("a/1.jpg"), Some(&meta(10, 20, None, 5, true)));
    assert_eq!(found.get("a/2.mp4"), Some(&meta(30, 40, Some(7), 6, true)));
    assert_eq!(db.get_metadata_for(&[]).len(), 0);
}

#[test]
fn batched_covers_match_the_point_lookup() {
    let db = Db::open_in_memory();
    db.set_cover("a", "a/1.jpg");
    db.set_cover("b", "b/2.jpg");

    let found = db.get_covers(&["a".to_string(), "b".to_string(), "c".to_string()]);
    assert_eq!(found.get("a").map(String::as_str), Some("a/1.jpg"));
    assert_eq!(found.get("b").map(String::as_str), Some("b/2.jpg"));
    assert_eq!(found.get("c"), None);
    assert!(db.get_covers(&[]).is_empty());
}

#[test]
fn probed_defaults_to_false_for_rows_written_before_the_column_existed() {
    let db = Db::open_in_memory();
    // A row written without a `probed` value.
    db.conn
        .execute(
            "INSERT INTO photo_metadata (photo_path, width, height, modified)
             VALUES ('old.mp4', 1920, 1080, 42)",
            [],
        )
        .unwrap();
    let row = db.get_metadata("old.mp4").expect("legacy row");
    assert!(!row.probed, "a legacy row must be re-probed once after upgrading");
    assert_eq!(row.duration, None);
}

#[test]
fn unnormalised_stored_paths_are_repaired() {
    let db = Db::open_in_memory();
    // Two rows with other forms of the same path, and a clean one.
    db.conn
        .execute(
            "INSERT INTO folder_covers (folder_path, image_name, updated_at)
             VALUES ('1970-79/', '1970-79/a.jpg', 1),
                    ('./1970-79', './1970-79/b.jpg', 2),
                    ('1971', '1971/c.jpg', 3)",
            [],
        )
        .unwrap();

    assert_eq!(db.normalize_stored_paths(), 2);
    assert_eq!(db.get_cover("1970-79").as_deref(), Some("1970-79/b.jpg"));
    assert_eq!(db.get_cover("1970-79/"), None);
    assert_eq!(db.get_cover("1971").as_deref(), Some("1971/c.jpg"));

    // A clean database is left alone, and the repair changes nothing twice.
    assert_eq!(db.normalize_stored_paths(), 0);
}

#[test]
fn the_most_recent_cover_wins_a_repair() {
    let row = |folder: &str, image: &str, updated: i64| StoredCover {
        folder: folder.to_string(),
        image: image.to_string(),
        updated,
    };
    let repair = normalize_stored_paths(&vec![
        row("a/", "a/new.jpg", 9),
        row("a", "a/old.jpg", 5),
        row("./a", "a/tie.jpg", 9),
    ]);
    assert_eq!(repair.changed, 2);
    let table = repair.table.unwrap();
    assert_eq!(table.len(), 1);
    assert_eq!((table[0].folder.as_str(), table[0].image.as_str()), ("a", "a/tie.jpg"));
    assert_eq!(normalize_stored_paths(&table).changed, 0);
    assert!(normalize_stored_paths(&table).table.is_none());
}

#[test]
fn delete_metadata_under_purges_only_the_subtree() {
    let db = Db::open_in_memory();
    seed(
        &db,
        &[
            "1970-79/1970/a.jpg",
            "1970-79/1970/deep/b.jpg",
            "1970-79/1971/c.jpg",
            // Begins like the folder, but is not in it.
            "1970-79/19700/d.jpg",
            // The folder's own key is not "under" itself.
            "1970-79/1970",
        ],
    );

    db.delete_metadata_under("1970-79/1970");

    assert_eq!(db.get_metadata("1970-79/1970/a.jpg"), None);
    assert_eq!(db.get_metadata("1970-79/1970/deep/b.jpg"), None);
    assert!(db.get_metadata("1970-79/1971/c.jpg").is_some());
    assert!(db.get_metadata("1970-79/19700/d.jpg").is_some());
    assert!(db.get_metadata("1970-79/1970").is_some());
}

#[test]
fn prefix_deletes_treat_wildcards_as_literal_text() {
    let db = Db::open_in_memory();
    seed(&db, &["100%/a.jpg", "100x/a.jpg", "a_b/p.jpg", "aXb/p.jpg"]);

    db.delete_metadata_under("100%");
    db.delete_metadata_under("a_b");

    assert_eq!(db.get_metadata("100%/a.jpg"), None);
    assert!(db.get_metadata("100x/a.jpg").is_some());
    assert_eq!(db.get_metadata("a_b/p.jpg"), None);
    assert!(db.get_metadata("aXb/p.jpg").is_some());
}

#[test]
fn delete_covers_under_purges_pointers_into_the_folder() {
    let db = Db::open_in_memory();
    // A cover on an ancestor that points at a photo in the removed folder must
    // go too.
    db.set_cover("1970-79", "1970-79/1970/a.jpg");
    db.set_cover("1970-79/1970", "1970-79/1970/a.jpg");
    // Unrelated cover, and one whose name merely shares a prefix.
    db.set_cover("1970-79/1971", "1970-79/1971/b.jpg");
    db.set_cover("1970-79/19700", "1970-79/19700/d.jpg");

    db.write(Write::DeleteCoversUnder { folder: "1970-79/1970".to_string() });

    assert_eq!(db.get_cover("1970-79"), None);
    assert_eq!(db.get_cover("1970-79/1970"), None);
    assert!(db.get_cover("1970-79/1971").is_some());
    assert!(db.get_cover("1970-79/19700").is_some());
}

#[test]
fn delete_cover_if_matches_requires_the_exact_image() {
    let db = Db::open_in_memory();
    let forget = |image: &str| Write::DeleteCoverIfMatches {
        folder: "1970-79/1971".to_string(),
        image: image.to_string(),
    };
    db.set_cover("1970-79/1971", "1970-79/1971/b.jpg");

    db.write(forget("1970-79/1971/other.jpg"));
    assert!(db.get_cover("1970-79/1971").is_some());

    db.write(forget("1970-79/1971/b.jpg"));
    assert_eq!(db.get_cover("1970-79/1971"), None);
}

#[test]
fn a_cover_is_written_read_back_and_deleted() {
    let db = Db::open_in_memory();
    db.set_cover("a", "a/1.jpg");
    db.set_cover("a", "a/2.jpg");
    db.set_cover("", "a/2.jpg");
    assert_eq!(db.get_cover("a").as_deref(), Some("a/2.jpg"));
    assert_eq!(db.get_cover("").as_deref(), Some("a/2.jpg"));
    assert!(db.stored_covers().iter().all(|row| row.updated == 1000));
    db.write(Write::DeleteCover { folder: "a".to_string() });
    assert_eq!(db.get_cover("a"), None);
    assert!(db.get_cover("").is_some());
}

#[test]
fn large_look_ups_are_batched() {
    let paths: Vec<String> = (0..2 * QUERY_CHUNK + 1).map(|i| format!("p{i}")).collect();
    let queries = metadata_queries(&paths);
    let sizes: Vec<usize> = queries.iter().map(|q| q.params.len()).collect();
    assert_eq!(sizes, vec![QUERY_CHUNK, QUERY_CHUNK, 1]);
    assert!(queries[2].sql.ends_with(" IN (?)"));
    assert_eq!(placeholders(0), "");
    assert_eq!(placeholders(3), "?,?,?");
    let db = Db::open_in_memory();
    seed(&db, &["p0", "p700", "p1000"]);
    let found = db.get_metadata_for(&paths);
    assert_eq!(found.len(), 3);
    for path in &paths {
        assert_eq!(found.get(path), db.get_metadata(path).as_ref(), "{path}");
    }
    db.set_cover("p1", "p1/a.jpg");
    db.set_cover("p999", "p999/b.jpg");
    let covers = db.get_covers(&paths);
    assert_eq!(covers.len(), 2);
    for path in &paths {
        assert_eq!(covers.get(path), db.get_cover(path).as_ref(), "{path}");
    }
}

#[test]
fn a_deleted_photo_is_forgotten_everywhere() {
    let db = Db::open_in_memory();
    let photo = "a/b/c/x.jpg";
    seed(&db, &[photo, "a/b/c/y.jpg"]);
    for folder in ["", "a", "a/b", "a/b/c"] {
        db.set_cover(folder, photo);
    }
    db.set_cover("other", "other/z.jpg");
    let plan = process_delete(photo);
    assert!(plan.remove_thumb);
    for write in plan.writes {
        db.write(write);
    }
    for folder in ["", "a", "a/b", "a/b/c"] {
        assert_eq!(db.get_cover(folder), None, "{folder:?}");
    }
    assert_eq!(db.get_cover("other").as_deref(), Some("other/z.jpg"));
    assert_eq!(db.get_metadata(photo), None);
    assert!(db.get_metadata("a/b/c/y.jpg").is_some());
}

#[test]
fn a_deleted_folder_is_purged() {
    let db = Db::open_in_memory();
    seed(&db, &["a/b/x.jpg", "a/b/c/y.jpg", "a/bb/z.jpg"]);
    db.set_cover("a", "a/b/x.jpg");
    db.set_cover("a/b", "a/b/c/y.jpg");
    db.set_cover("a/bb", "a/bb/z.jpg");
    let plan = process_delete("a/b");
    assert!(!plan.remove_thumb);
    for write in plan.writes {
        db.write(write);
    }
    assert_eq!(db.get_cover("a"), None);
    assert_eq!(db.get_cover("a/b"), None);
    assert_eq!(db.get_cover("a/bb").as_deref(), Some("a/bb/z.jpg"));
    assert_eq!(db.get_metadata("a/b/x.jpg"), None);
    assert_eq!(db.get_metadata("a/b/c/y.jpg"), None);
    assert!(db.get_metadata("a/bb/z.jpg").is_some());
}
