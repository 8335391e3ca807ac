//! What the album stores: cover choices and photo metadata.
//!
//! The tables live in SQLite. This module holds the statements that read and
//! change them, what each change means for the tables, and the repair of rows
//! whose paths are not in canonical form.

use crate::text;
use crate::util;
use vstd::hash_map::StringHashMap;
use vstd::prelude::*;

verus! {

/// One row of photo metadata.
#[derive(Debug, Clone, Copy, PartialEq, Eq, Structural)]
pub struct PhotoMeta {
    pub width: u32,
    pub height: u32,
    pub duration: Option<u64>,
    /// Source modification time, in seconds since the epoch, when this row was
    /// written.
    pub modified: i64,
    /// Whether a probe of the source has run and its result been recorded.
    pub probed: bool,
}

/// Largest number of path parameters bound into one batched query.
pub const QUERY_CHUNK: usize = 500;

/// Run when a database file is opened. Without a busy timeout a lock held by
/// another process would fail the next query instead of delaying it.
pub const OPEN_PRAGMAS: &'static str = "PRAGMA journal_mode = WAL; PRAGMA busy_timeout = 5000;";

/// The tables. The dropped indexes duplicated those of the primary keys.
pub const SCHEMA: &'static str =
    "CREATE TABLE IF NOT EXISTS folder_covers (folder_path TEXT PRIMARY KEY, image_name TEXT NOT NULL, updated_at INTEGER NOT NULL); CREATE TABLE IF NOT EXISTS photo_metadata (photo_path TEXT PRIMARY KEY, width INTEGER, height INTEGER, duration INTEGER, modified INTEGER NOT NULL); DROP INDEX IF EXISTS idx_covers_path; DROP INDEX IF EXISTS idx_photo_meta_path;";

/// Adds a column that the first release did not have. It fails on a table that
/// has it, which is ignored.
pub const ADD_DURATION: &'static str = "ALTER TABLE photo_metadata ADD COLUMN duration INTEGER";

/// Adds the column that says whether a probe has run. Existing rows default to
/// zero, so each is probed once more and then left alone.
pub const ADD_PROBED: &'static str =
    "ALTER TABLE photo_metadata ADD COLUMN probed INTEGER NOT NULL DEFAULT 0";

pub const SET_COVER: &'static str =
    "INSERT INTO folder_covers (folder_path, image_name, updated_at) VALUES (?1, ?2, ?3) ON CONFLICT(folder_path) DO UPDATE SET image_name = excluded.image_name, updated_at = excluded.updated_at";

pub const DELETE_COVER: &'static str = "DELETE FROM folder_covers WHERE folder_path = ?1";

pub const DELETE_COVER_IF_MATCHES: &'static str =
    "DELETE FROM folder_covers WHERE folder_path = ?1 AND image_name = ?2";

/// Compares a prefix rather than a pattern, so that `%` and `_` in a folder
/// name match nothing else. The prefix has one character more than the folder,
/// for the separator.
pub const DELETE_COVERS_UNDER: &'static str =
    "DELETE FROM folder_covers WHERE substr(image_name, 1, length(?1) + 1) = ?1 || '/'";

pub const SET_METADATA: &'static str =
    "INSERT INTO photo_metadata (photo_path, width, height, duration, modified, probed) VALUES (?1, ?2, ?3, ?4, ?5, ?6) ON CONFLICT(photo_path) DO UPDATE SET width = excluded.width, height = excluded.height, duration = excluded.duration, modified = excluded.modified, probed = excluded.probed";

pub const DELETE_METADATA: &'static str = "DELETE FROM photo_metadata WHERE photo_path = ?1";

pub const DELETE_METADATA_UNDER: &'static str =
    "DELETE FROM photo_metadata WHERE substr(photo_path, 1, length(?1) + 1) = ?1 || '/'";

pub const GET_COVER: &'static str = "SELECT image_name FROM folder_covers WHERE folder_path = ?1";

pub const GET_METADATA: &'static str =
    "SELECT width, height, duration, modified, probed FROM photo_metadata WHERE photo_path = ?1";

/// The beginning of a batched cover query. A list of placeholders and a closing
/// bracket follow.
pub const GET_COVERS: &'static str =
    "SELECT folder_path, image_name FROM folder_covers WHERE folder_path IN (";

/// The beginning of a batched metadata query.
pub const GET_METADATA_FOR: &'static str =
    "SELECT photo_path, width, height, duration, modified, probed FROM photo_metadata WHERE photo_path IN (";

pub const ALL_COVERS: &'static str = "SELECT folder_path, image_name, updated_at FROM folder_covers";

pub const CLEAR_COVERS: &'static str = "DELETE FROM folder_covers";

pub const INSERT_COVER: &'static str =
    "INSERT INTO folder_covers (folder_path, image_name, updated_at) VALUES (?1, ?2, ?3)";

/// A value bound into a statement.
#[derive(Debug, Clone)]
pub enum Param {
    Text(String),
    Signed(i64),
    Unsigned(u64),
    Null,
}

/// A statement and the values bound into it.
#[derive(Debug, Clone)]
pub struct Statement {
    pub sql: String,
    pub params: Vec<Param>,
}

/// The content of a [`Param`].
pub enum ParamView {
    Text(Seq<char>),
    Signed(i64),
    Unsigned(u64),
    Null,
}

/// The content of a [`Statement`].
#[verifier::ext_equal]
pub struct StatementView {
    pub sql: Seq<char>,
    pub params: Seq<ParamView>,
}

impl View for Param {
    type V = ParamView;

    open spec fn view(&self) -> ParamView {
        match self {
            Param::Text(s) => ParamView::Text(s@),
            Param::Signed(n) => ParamView::Signed(*n),
            Param::Unsigned(n) => ParamView::Unsigned(*n),
            Param::Null => ParamView::Null,
        }
    }
}

impl View for Statement {
    type V = StatementView;

    open spec fn view(&self) -> StatementView {
        StatementView { sql: self.sql@, params: self.params@.map_values(|p: Param| p@) }
    }
}

/// A change to the tables.
#[derive(Debug, Clone)]
pub enum Write {
    /// Make `image` the cover of `folder`.
    SetCover { folder: String, image: String },
    /// Forget the cover of `folder`.
    DeleteCover { folder: String },
    /// Forget the cover of `folder` if it is `image`.
    DeleteCoverIfMatches { folder: String, image: String },
    /// Forget every cover whose image is inside `folder`.
    DeleteCoversUnder { folder: String },
    /// Record the metadata of `photo`.
    SetMetadata { photo: String, meta: PhotoMeta },
    /// Forget the metadata of `photo`.
    DeleteMetadata { photo: String },
    /// Forget the metadata of every photo inside `folder`.
    DeleteMetadataUnder { folder: String },
}

/// The content of a [`Write`].
pub enum Change {
    SetCover { folder: Seq<char>, image: Seq<char> },
    DeleteCover { folder: Seq<char> },
    DeleteCoverIfMatches { folder: Seq<char>, image: Seq<char> },
    DeleteCoversUnder { folder: Seq<char> },
    SetMetadata { photo: Seq<char>, meta: PhotoMeta },
    DeleteMetadata { photo: Seq<char> },
    DeleteMetadataUnder { folder: Seq<char> },
}

impl View for Write {
    type V = Change;

    open spec fn view(&self) -> Change {
        match self {
            Write::SetCover { folder, image } => Change::SetCover {
                folder: folder@,
                image: image@,
            },
            Write::DeleteCover { folder } => Change::DeleteCover { folder: folder@ },
            Write::DeleteCoverIfMatches { folder, image } => Change::DeleteCoverIfMatches {
                folder: folder@,
                image: image@,
            },
            Write::DeleteCoversUnder { folder } => Change::DeleteCoversUnder { folder: folder@ },
            Write::SetMetadata { photo, meta } => Change::SetMetadata { photo: photo@, meta: *meta },
            Write::DeleteMetadata { photo } => Change::DeleteMetadata { photo: photo@ },
            Write::DeleteMetadataUnder { folder } => Change::DeleteMetadataUnder {
                folder: folder@,
            },
        }
    }
}

/// The contents of a list of changes.
pub open spec fn changes(writes: Seq<Write>) -> Seq<Change> {
    writes.map_values(|w: Write| w@)
}

/// What the tables hold: the image of each folder with an explicit cover, and
/// the metadata of each photo.
#[verifier::ext_equal]
pub struct Tables {
    pub covers: Map<Seq<char>, Seq<char>>,
    pub metadata: Map<Seq<char>, PhotoMeta>,
}

/// Whether `p` is somewhere inside `folder`.
pub open spec fn is_under(p: Seq<char>, folder: Seq<char>) -> bool {
    folder.push('/').is_prefix_of(p)
}

/// What a change makes of the tables.
pub open spec fn applied(t: Tables, change: Change) -> Tables {
    match change {
        Change::SetCover { folder, image } => Tables {
            covers: t.covers.insert(folder, image),
            metadata: t.metadata,
        },
        Change::DeleteCover { folder } => Tables {
            covers: t.covers.remove(folder),
            metadata: t.metadata,
        },
        Change::DeleteCoverIfMatches { folder, image } => Tables {
            covers: if t.covers.contains_key(folder) && t.covers[folder] == image {
                t.covers.remove(folder)
            } else {
                t.covers
            },
            metadata: t.metadata,
        },
        Change::DeleteCoversUnder { folder } => Tables {
            covers: t.covers.restrict(
                Set::new(|f: Seq<char>| t.covers.contains_key(f) && !is_under(t.covers[f], folder)),
            ),
            metadata: t.metadata,
        },
        Change::SetMetadata { photo, meta } => Tables {
            covers: t.covers,
            metadata: t.metadata.insert(photo, meta),
        },
        Change::DeleteMetadata { photo } => Tables {
            covers: t.covers,
            metadata: t.metadata.remove(photo),
        },
        Change::DeleteMetadataUnder { folder } => Tables {
            covers: t.covers,
            metadata: t.metadata.restrict(
                Set::new(|p: Seq<char>| t.metadata.contains_key(p) && !is_under(p, folder)),
            ),
        },
    }
}

/// What a list of changes, made in order, makes of the tables.
pub open spec fn applied_all(t: Tables, list: Seq<Change>) -> Tables
    decreases list.len(),
{
    if list.len() == 0 {
        t
    } else {
        applied(applied_all(t, list.drop_last()), list.last())
    }
}

/// Changes made one list after the other.
pub proof fn lemma_applied_append(t: Tables, a: Seq<Change>, b: Seq<Change>)
    ensures
        applied_all(t, a + b) == applied_all(applied_all(t, a), b),
    decreases b.len(),
{
    if b.len() == 0 {
        assert(a + b =~= a);
    } else {
        lemma_applied_append(t, a, b.drop_last());
        assert((a + b).drop_last() =~= a + b.drop_last());
    }
}

/// The value bound for a duration.
pub open spec fn duration_param(duration: Option<u64>) -> ParamView {
    match duration {
        Some(secs) => ParamView::Unsigned(secs),
        None => ParamView::Null,
    }
}

/// The statement that makes a change, at the time `now`.
pub open spec fn statement_of(change: Change, now: i64) -> StatementView {
    match change {
        Change::SetCover { folder, image } => StatementView {
            sql: SET_COVER@,
            params: seq![
                ParamView::Text(folder),
                ParamView::Text(image),
                ParamView::Signed(now),
            ],
        },
        Change::DeleteCover { folder } => StatementView {
            sql: DELETE_COVER@,
            params: seq![ParamView::Text(folder)],
        },
        Change::DeleteCoverIfMatches { folder, image } => StatementView {
            sql: DELETE_COVER_IF_MATCHES@,
            params: seq![ParamView::Text(folder), ParamView::Text(image)],
        },
        Change::DeleteCoversUnder { folder } => StatementView {
            sql: DELETE_COVERS_UNDER@,
            params: seq![ParamView::Text(folder)],
        },
        Change::SetMetadata { photo, meta } => StatementView {
            sql: SET_METADATA@,
            params: seq![
                ParamView::Text(photo),
                ParamView::Unsigned(meta.width as u64),
                ParamView::Unsigned(meta.height as u64),
                duration_param(meta.duration),
                ParamView::Signed(meta.modified),
                ParamView::Signed(
                    if meta.probed {
                        1
                    } else {
                        0
                    },
                ),
            ],
        },
        Change::DeleteMetadata { photo } => StatementView {
            sql: DELETE_METADATA@,
            params: seq![ParamView::Text(photo)],
        },
        Change::DeleteMetadataUnder { folder } => StatementView {
            sql: DELETE_METADATA_UNDER@,
            params: seq![ParamView::Text(folder)],
        },
    }
}

fn statement_with(sql: &str, params: Vec<Param>) -> (r: Statement)
    ensures
        r@ == (StatementView { sql: sql@, params: params@.map_values(|p: Param| p@) }),
{
    Statement { sql: sql.to_owned(), params }
}

/// The statement that makes a change, at the time `now`.
pub fn statement(write: &Write, now: i64) -> (r: Statement)
    ensures
        r@ == statement_of(write@, now),
{
    let mut params: Vec<Param> = Vec::new();
    let sql = match write {
        Write::SetCover { folder, image } => {
            params.push(Param::Text(folder.clone()));
            params.push(Param::Text(image.clone()));
            params.push(Param::Signed(now));
            SET_COVER
        },
        Write::DeleteCover { folder } => {
            params.push(Param::Text(folder.clone()));
            DELETE_COVER
        },
        Write::DeleteCoverIfMatches { folder, image } => {
            params.push(Param::Text(folder.clone()));
            params.push(Param::Text(image.clone()));
            DELETE_COVER_IF_MATCHES
        },
        Write::DeleteCoversUnder { folder } => {
            params.push(Param::Text(folder.clone()));
            DELETE_COVERS_UNDER
        },
        Write::SetMetadata { photo, meta } => {
            params.push(Param::Text(photo.clone()));
            params.push(Param::Unsigned(meta.width as u64));
            params.push(Param::Unsigned(meta.height as u64));
            params.push(
                match meta.duration {
                    Some(secs) => Param::Unsigned(secs),
                    None => Param::Null,
                },
            );
            params.push(Param::Signed(meta.modified));
            params.push(
                Param::Signed(
                    if meta.probed {
                        1
                    } else {
                        0
                    },
                ),
            );
            SET_METADATA
        },
        Write::DeleteMetadata { photo } => {
            params.push(Param::Text(photo.clone()));
            DELETE_METADATA
        },
        Write::DeleteMetadataUnder { folder } => {
            params.push(Param::Text(folder.clone()));
            DELETE_METADATA_UNDER
        },
    };
    let r = statement_with(sql, params);
    proof {
        assert(r@.params =~= statement_of(write@, now).params);
    }
    r
}

/// The query for the cover stored for `folder_path`.
pub fn cover_query(folder_path: &str) -> (r: Statement)
    ensures
        r@ == (StatementView { sql: GET_COVER@, params: seq![ParamView::Text(folder_path@)] }),
{
    let mut params: Vec<Param> = Vec::new();
    params.push(Param::Text(folder_path.to_owned()));
    proof {
        assert(params@.map_values(|p: Param| p@) =~= seq![ParamView::Text(folder_path@)]);
    }
    statement_with(GET_COVER, params)
}

/// The query for the metadata stored for `photo_path`.
pub fn metadata_query(photo_path: &str) -> (r: Statement)
    ensures
        r@ == (StatementView { sql: GET_METADATA@, params: seq![ParamView::Text(photo_path@)] }),
{
    let mut params: Vec<Param> = Vec::new();
    params.push(Param::Text(photo_path.to_owned()));
    proof {
        assert(params@.map_values(|p: Param| p@) =~= seq![ParamView::Text(photo_path@)]);
    }
    statement_with(GET_METADATA, params)
}

/// `n` placeholders, separated by commas.
pub open spec fn placeholder_list(n: nat) -> Seq<char>
    decreases n,
{
    if n == 0 {
        Seq::<char>::empty()
    } else if n == 1 {
        seq!['?']
    } else {
        placeholder_list((n - 1) as nat) + seq![',', '?']
    }
}

/// `n` placeholders, separated by commas.
pub fn placeholders(n: usize) -> (r: String)
    ensures
        r@ == placeholder_list(n as nat),
{
    let mut out: String = String::new();
    let mut i: usize = 0;
    proof {
        assert(out@ =~= placeholder_list(0));
    }
    while i < n
        invariant
            i <= n,
            out@ == placeholder_list(i as nat),
        decreases n - i,
    {
        let ghost before = out@;
        if i > 0 {
            out.push(',');
        }
        out.push('?');
        proof {
            assert(out@ =~= placeholder_list((i + 1) as nat));
        }
        i = i + 1;
    }
    out
}

/// How many paths the next batched query takes.
pub open spec fn chunk_len(n: nat) -> nat {
    if n <= QUERY_CHUNK {
        n
    } else {
        QUERY_CHUNK as nat
    }
}

/// The values bound for a list of paths.
pub open spec fn path_params(paths: Seq<Seq<char>>) -> Seq<ParamView> {
    paths.map_values(|p: Seq<char>| ParamView::Text(p))
}

/// The batched query for one chunk of paths.
pub open spec fn chunk_query(head: Seq<char>, chunk: Seq<Seq<char>>) -> StatementView {
    StatementView {
        sql: head + placeholder_list(chunk.len()) + seq![')'],
        params: path_params(chunk),
    }
}

/// The batched queries for a list of paths, in chunks.
pub open spec fn batched(head: Seq<char>, paths: Seq<Seq<char>>) -> Seq<StatementView>
    decreases paths.len(),
{
    if paths.len() == 0 {
        Seq::<StatementView>::empty()
    } else {
        let n = chunk_len(paths.len()) as int;
        seq![chunk_query(head, paths.take(n))] + batched(head, paths.skip(n))
    }
}

/// The contents of a list of statements.
pub open spec fn statement_views(statements: Seq<Statement>) -> Seq<StatementView> {
    statements.map_values(|s: Statement| s@)
}

/// The queries for the covers of many folders.
pub fn cover_queries(folder_paths: &Vec<String>) -> (r: Vec<Statement>)
    ensures
        statement_views(r@) == batched(GET_COVERS@, text::string_views(folder_paths@)),
{
    batched_queries(GET_COVERS, folder_paths)
}

/// The queries for the metadata of many photos.
pub fn metadata_queries(photo_paths: &Vec<String>) -> (r: Vec<Statement>)
    ensures
        statement_views(r@) == batched(GET_METADATA_FOR@, text::string_views(photo_paths@)),
{
    batched_queries(GET_METADATA_FOR, photo_paths)
}

fn batched_queries(head: &str, paths: &Vec<String>) -> (r: Vec<Statement>)
    ensures
        statement_views(r@) == batched(head@, text::string_views(paths@)),
{
    let ghost all = text::string_views(paths@);
    let mut out: Vec<Statement> = Vec::new();
    let mut at: usize = 0;
    proof {
        assert(all.skip(0) =~= all);
        assert(statement_views(out@) + batched(head@, all) =~= batched(head@, all));
    }
    while at < paths.len()
        invariant
            at <= paths@.len(),
            all == text::string_views(paths@),
            statement_views(out@) + batched(head@, all.skip(at as int)) == batched(head@, all),
        decreases paths.len() - at,
    {
        let left: usize = paths.len() - at;
        let n: usize = if left <= QUERY_CHUNK {
            left
        } else {
            QUERY_CHUNK
        };
        let ghost before = out@;
        let ghost rest = all.skip(at as int);
        let query = one_chunk(head, paths, at, n);
        proof {
            assert(rest.take(n as int) =~= all.subrange(at as int, at + n));
            assert(rest.skip(n as int) =~= all.skip(at + n));
        }
        let ghost q = query@;
        out.push(query);
        proof {
            assert(statement_views(out@) =~= statement_views(before).push(q));
            assert(statement_views(before) + (seq![q] + batched(head@, all.skip(at + n)))
                =~= statement_views(out@) + batched(head@, all.skip(at + n)));
        }
        at = at + n;
    }
    proof {
        assert(all.skip(at as int) =~= Seq::<Seq<char>>::empty());
        assert(statement_views(out@) + batched(head@, all.skip(at as int)) =~= statement_views(
            out@,
        ));
    }
    out
}

fn one_chunk(head: &str, paths: &Vec<String>, at: usize, n: usize) -> (r: Statement)
    requires
        at + n <= paths@.len(),
    ensures
        r@ == chunk_query(head@, text::string_views(paths@).subrange(at as int, at + n)),
{
    let ghost chunk = text::string_views(paths@).subrange(at as int, at + n);
    let mut params: Vec<Param> = Vec::new();
    let total = paths.len();
    let mut i: usize = 0;
    while i < n
        invariant
            i <= n,
            at + n <= total == paths@.len(),
            chunk == text::string_views(paths@).subrange(at as int, at + n),
            params@.len() == i,
            forall|j: int| 0 <= j < i ==> (#[trigger] params@[j])@ == ParamView::Text(chunk[j]),
        decreases n - i,
    {
        params.push(Param::Text(paths[at + i].clone()));
        i = i + 1;
    }
    let mut sql: String = head.to_owned();
    sql.append(&placeholders(n));
    let ghost open = sql@;
    sql.push(')');
    proof {
        assert(sql@ =~= open + seq![')']);
        assert(params@.map_values(|p: Param| p@) =~= path_params(chunk));
    }
    Statement { sql, params }
}

/// The values a list of statements binds, in order.
pub open spec fn bound(queries: Seq<StatementView>) -> Seq<ParamView>
    decreases queries.len(),
{
    if queries.len() == 0 {
        Seq::<ParamView>::empty()
    } else {
        queries.first().params + bound(queries.drop_first())
    }
}

/// Batched queries ask for every path exactly once, in order, and none binds
/// more values than the limit or fewer than one.
pub proof fn law_batches_cover_every_path(head: Seq<char>, paths: Seq<Seq<char>>)
    ensures
        bound(batched(head, paths)) == path_params(paths),
        forall|i: int|
            0 <= i < batched(head, paths).len() ==> 1 <= (#[trigger] batched(
                head,
                paths,
            )[i]).params.len() <= QUERY_CHUNK,
    decreases paths.len(),
{
    if paths.len() == 0 {
        assert(path_params(paths) =~= Seq::<ParamView>::empty());
    } else {
        let n = chunk_len(paths.len()) as int;
        let rest = batched(head, paths.skip(n));
        let all = batched(head, paths);
        law_batches_cover_every_path(head, paths.skip(n));
        assert(all.drop_first() =~= rest);
        assert(all.first() == chunk_query(head, paths.take(n)));
        assert(path_params(paths) =~= path_params(paths.take(n)) + path_params(paths.skip(n)));
        assert forall|i: int| 0 <= i < all.len() implies 1 <= (#[trigger] all[i]).params.len()
            <= QUERY_CHUNK by {
            if i > 0 {
                assert(all[i] == rest[i - 1]);
            }
        }
    }
}

/// The rows of a table, by their paths, that a statement with these values asks
/// for.
pub open spec fn rows_for<V>(table: Map<Seq<char>, V>, params: Seq<ParamView>) -> Map<
    Seq<char>,
    V,
> {
    table.restrict(Set::new(|p: Seq<char>| params.contains(ParamView::Text(p))))
}

/// The rows that a list of statements asks for, put together.
pub open spec fn rows_for_all<V>(table: Map<Seq<char>, V>, queries: Seq<StatementView>) -> Map<
    Seq<char>,
    V,
>
    decreases queries.len(),
{
    if queries.len() == 0 {
        Map::empty()
    } else {
        rows_for(table, queries.first().params).union_prefer_right(
            rows_for_all(table, queries.drop_first()),
        )
    }
}

/// What a table holds under a path.
pub open spec fn row_at<V>(table: Map<Seq<char>, V>, p: Seq<char>) -> Option<V> {
    if table.contains_key(p) {
        Some(table[p])
    } else {
        None
    }
}

proof fn lemma_rows_for_all<V>(table: Map<Seq<char>, V>, queries: Seq<StatementView>)
    ensures
        rows_for_all(table, queries) == rows_for(table, bound(queries)),
    decreases queries.len(),
{
    if queries.len() > 0 {
        let first = queries.first().params;
        let rest = bound(queries.drop_first());
        lemma_rows_for_all(table, queries.drop_first());
        assert forall|x: ParamView| #[trigger] (first + rest).contains(x) <==> first.contains(x)
            || rest.contains(x) by {
            if first.contains(x) {
                let i = choose|i: int| 0 <= i < first.len() && first[i] == x;
                assert((first + rest)[i] == x);
            }
            if rest.contains(x) {
                let i = choose|i: int| 0 <= i < rest.len() && rest[i] == x;
                assert((first + rest)[first.len() + i] == x);
            }
        }
    }
    assert(rows_for_all(table, queries) =~= rows_for(table, bound(queries)));
}

proof fn lemma_batches_match_point_reads<V>(
    table: Map<Seq<char>, V>,
    head: Seq<char>,
    paths: Seq<Seq<char>>,
    p: Seq<char>,
)
    ensures
        row_at(rows_for_all(table, batched(head, paths)), p) == if paths.contains(p) {
            row_at(table, p)
        } else {
            None
        },
        row_at(rows_for(table, seq![ParamView::Text(p)]), p) == row_at(table, p),
{
    let params = path_params(paths);
    law_batches_cover_every_path(head, paths);
    lemma_rows_for_all(table, batched(head, paths));
    if paths.contains(p) {
        let i = choose|i: int| 0 <= i < paths.len() && paths[i] == p;
        assert(params[i] == ParamView::Text(p));
    }
    if params.contains(ParamView::Text(p)) {
        let i = choose|i: int| 0 <= i < params.len() && params[i] == ParamView::Text(p);
        assert(paths[i] == p);
    }
    assert(seq![ParamView::Text(p)][0] == ParamView::Text(p));
}

/// Reading many paths in batches finds for each of them what reading it alone
/// finds, however many there are and however often one is named, and nothing for
/// any other path. That goes for metadata and covers alike.
pub proof fn law_batches_match_point_reads(t: Tables, paths: Seq<Seq<char>>, p: Seq<char>)
    ensures
        row_at(rows_for_all(t.metadata, batched(GET_METADATA_FOR@, paths)), p)
            == if paths.contains(p) {
            row_at(rows_for(t.metadata, seq![ParamView::Text(p)]), p)
        } else {
            None
        },
        row_at(rows_for(t.metadata, seq![ParamView::Text(p)]), p) == row_at(t.metadata, p),
        row_at(rows_for_all(t.covers, batched(GET_COVERS@, paths)), p) == if paths.contains(p) {
            row_at(rows_for(t.covers, seq![ParamView::Text(p)]), p)
        } else {
            None
        },
        row_at(rows_for(t.covers, seq![ParamView::Text(p)]), p) == row_at(t.covers, p),
{
    lemma_batches_match_point_reads(t.metadata, GET_METADATA_FOR@, paths, p);
    lemma_batches_match_point_reads(t.covers, GET_COVERS@, paths, p);
}

/// A row of the cover table.
#[derive(Debug, Clone)]
pub struct StoredCover {
    pub folder: String,
    pub image: String,
    /// When the row was written, in seconds since the epoch.
    pub updated: i64,
}

/// The content of a [`StoredCover`].
#[verifier::ext_equal]
pub struct CoverRow {
    pub folder: Seq<char>,
    pub image: Seq<char>,
    pub updated: i64,
}

impl View for StoredCover {
    type V = CoverRow;

    open spec fn view(&self) -> CoverRow {
        CoverRow { folder: self.folder@, image: self.image@, updated: self.updated }
    }
}

/// The contents of a list of rows.
pub open spec fn cover_rows(rows: Seq<StoredCover>) -> Seq<CoverRow> {
    rows.map_values(|r: StoredCover| r@)
}

/// A row with its paths in canonical form.
pub open spec fn repaired(row: CoverRow) -> CoverRow {
    CoverRow {
        folder: util::normalized(row.folder),
        image: util::normalized(row.image),
        updated: row.updated,
    }
}

/// How many rows have a path that is not in canonical form.
pub open spec fn changed_count(rows: Seq<CoverRow>) -> nat
    decreases rows.len(),
{
    if rows.len() == 0 {
        0
    } else {
        changed_count(rows.drop_last()) + if repaired(rows.last()) != rows.last() {
            1nat
        } else {
            0
        }
    }
}

/// The repaired rows by folder. Where several rows have the same folder the most
/// recently updated one wins, the later one where they are equally recent.
pub open spec fn merged(rows: Seq<CoverRow>) -> Map<Seq<char>, CoverRow>
    decreases rows.len(),
{
    if rows.len() == 0 {
        Map::empty()
    } else {
        let front = merged(rows.drop_last());
        let row = repaired(rows.last());
        if front.contains_key(row.folder) && row.updated < front[row.folder].updated {
            front
        } else {
            front.insert(row.folder, row)
        }
    }
}

/// Whether `table` holds exactly the rows of `map`, each once.
pub open spec fn tabulates(table: Seq<CoverRow>, map: Map<Seq<char>, CoverRow>) -> bool {
    &&& forall|i: int|
        0 <= i < table.len() ==> map.contains_key((#[trigger] table[i]).folder)
            && map[table[i].folder] == table[i]
    &&& forall|f: Seq<char>| #[trigger]
        map.contains_key(f) ==> exists|i: int|
            0 <= i < table.len() && (#[trigger] table[i]).folder == f
    &&& forall|i: int, j: int|
        0 <= i < j < table.len() ==> (#[trigger] table[i]).folder != (#[trigger] table[j]).folder
}

/// What repairing the cover table comes to.
pub struct Repair {
    /// How many rows have a path that changes.
    pub changed: usize,
    /// The whole table as it should be, where anything changes.
    pub table: Option<Vec<StoredCover>>,
}

/// Puts the paths of the cover table in canonical form. Nothing is to be
/// written where they are already.
pub fn normalize_stored_paths(rows: &Vec<StoredCover>) -> (r: Repair)
    ensures
        r.changed == changed_count(cover_rows(rows@)),
        r.table is Some == (r.changed > 0),
        r.table is Some ==> tabulates(cover_rows(r.table->0@), merged(cover_rows(rows@))),
{
    let ghost all = cover_rows(rows@);
    let mut changed: usize = 0;
    let mut table: Vec<StoredCover> = Vec::new();
    let mut index: StringHashMap<usize> = StringHashMap::new();
    let mut i: usize = 0;
    proof {
        assert(all.take(0) =~= Seq::<CoverRow>::empty());
    }
    while i < rows.len()
        invariant
            i <= rows@.len(),
            all == cover_rows(rows@),
            changed == changed_count(all.take(i as int)),
            changed <= i,
            table@.len() <= i,
            is_index(index@, cover_rows(table@)),
            tabulates(cover_rows(table@), merged(all.take(i as int))),
        decreases rows.len() - i,
    {
        let row = &rows[i];
        let folder = util::normalize_rel_path(&row.folder);
        let image = util::normalize_rel_path(&row.image);
        proof {
            assert(all.take(i + 1).drop_last() =~= all.take(i as int));
            assert(all.take(i + 1).last() == row@);
        }
        let ghost fixed = repaired(row@);
        if !text::same_text(&folder, &row.folder) || !text::same_text(&image, &row.image) {
            changed = changed + 1;
        }
        let ghost before = cover_rows(table@);
        let ghost map = merged(all.take(i as int));
        let known = match index.get(&folder) {
            Some(at) => Some(*at),
            None => None,
        };
        match known {
            Some(at) => {
                proof {
                    assert(before[at as int].folder == fixed.folder);
                    assert(map[fixed.folder] == before[at as int]);
                }
                if row.updated >= table[at].updated {
                    table.set(at, StoredCover { folder, image, updated: row.updated });
                    proof {
                        let after = cover_rows(table@);
                        assert(after =~= before.update(at as int, fixed));
                        lemma_replaced(before, map, at as int, fixed);
                        assert(is_index(index@, after));
                    }
                }
            },
            None => {
                proof {
                    assert(!map.contains_key(fixed.folder)) by {
                        if map.contains_key(fixed.folder) {
                            let j = choose|j: int|
                                0 <= j < before.len() && (#[trigger] before[j]).folder
                                    == fixed.folder;
                            assert(index@.contains_key(before[j].folder));
                        }
                    }
                }
                index.insert(folder.clone(), table.len());
                table.push(StoredCover { folder, image, updated: row.updated });
                proof {
                    let after = cover_rows(table@);
                    assert(after =~= before.push(fixed));
                    lemma_added(before, map, fixed);
                    assert(is_index(index@, after)) by {
                        assert forall|j: int| 0 <= j < after.len() implies index@.contains_key(
                            (#[trigger] after[j]).folder,
                        ) && index@[after[j].folder] == j by {
                            if j < before.len() {
                                assert(after[j] == before[j]);
                                assert(map.contains_key(before[j].folder));
                            }
                        }
                    }
                }
            },
        }
        i = i + 1;
    }
    proof {
        assert(all.take(i as int) =~= all);
    }
    if changed > 0 {
        Repair { changed, table: Some(table) }
    } else {
        Repair { changed, table: None }
    }
}

/// Whether `index` says where each folder stands in `table`.
spec fn is_index(index: Map<Seq<char>, usize>, table: Seq<CoverRow>) -> bool {
    &&& forall|f: Seq<char>| #[trigger]
        index.contains_key(f) ==> 0 <= index[f] < table.len() && table[index[f] as int].folder == f
    &&& forall|j: int|
        0 <= j < table.len() ==> index.contains_key((#[trigger] table[j]).folder)
            && index[table[j].folder] == j
}

proof fn lemma_replaced(
    table: Seq<CoverRow>,
    map: Map<Seq<char>, CoverRow>,
    at: int,
    row: CoverRow,
)
    requires
        tabulates(table, map),
        0 <= at < table.len(),
        table[at].folder == row.folder,
    ensures
        tabulates(table.update(at, row), map.insert(row.folder, row)),
{
    let after = table.update(at, row);
    let map2 = map.insert(row.folder, row);
    assert forall|i: int| 0 <= i < after.len() implies map2.contains_key(
        (#[trigger] after[i]).folder,
    ) && map2[after[i].folder] == after[i] by {
        if i != at {
            assert(after[i] == table[i]);
            if i < at {
                assert(table[i].folder != table[at].folder);
            } else {
                assert(table[at].folder != table[i].folder);
            }
        }
    }
    assert forall|f: Seq<char>| #[trigger] map2.contains_key(f) implies exists|i: int|
        0 <= i < after.len() && (#[trigger] after[i]).folder == f by {
        if f == row.folder {
            assert(after[at].folder == f);
        } else {
            assert(map.contains_key(f));
            let i = choose|i: int| 0 <= i < table.len() && (#[trigger] table[i]).folder == f;
            assert(after[i].folder == f);
        }
    }
    assert forall|i: int, j: int| 0 <= i < j < after.len() implies (#[trigger] after[i]).folder
        != (#[trigger] after[j]).folder by {
        assert(after[i].folder == table[i].folder);
        assert(after[j].folder == table[j].folder);
    }
}

proof fn lemma_added(table: Seq<CoverRow>, map: Map<Seq<char>, CoverRow>, row: CoverRow)
    requires
        tabulates(table, map),
        !map.contains_key(row.folder),
    ensures
        tabulates(table.push(row), map.insert(row.folder, row)),
{
    let after = table.push(row);
    let map2 = map.insert(row.folder, row);
    assert forall|i: int| 0 <= i < after.len() implies map2.contains_key(
        (#[trigger] after[i]).folder,
    ) && map2[after[i].folder] == after[i] by {
        if i < table.len() {
            assert(after[i] == table[i]);
            assert(map.contains_key(table[i].folder));
        }
    }
    assert forall|f: Seq<char>| #[trigger] map2.contains_key(f) implies exists|i: int|
        0 <= i < after.len() && (#[trigger] after[i]).folder == f by {
        if f == row.folder {
            assert(after[table.len() as int].folder == f);
        } else {
            assert(map.contains_key(f));
            let i = choose|i: int| 0 <= i < table.len() && (#[trigger] table[i]).folder == f;
            assert(after[i].folder == f);
        }
    }
    assert forall|i: int, j: int| 0 <= i < j < after.len() implies (#[trigger] after[i]).folder
        != (#[trigger] after[j]).folder by {
        assert(after[i] == table[i]);
        assert(map.contains_key(table[i].folder));
        if j < table.len() {
            assert(after[j] == table[j]);
        }
    }
}

proof fn lemma_repaired_is_settled(row: CoverRow)
    ensures
        repaired(repaired(row)) == repaired(row),
{
    util::law_normalizing_is_idempotent(row.folder);
    util::law_normalizing_is_idempotent(row.image);
}

proof fn lemma_merged(rows: Seq<CoverRow>)
    ensures
        forall|f: Seq<char>| #[trigger]
            merged(rows).contains_key(f) ==> {
                &&& merged(rows)[f].folder == f
                &&& repaired(merged(rows)[f]) == merged(rows)[f]
                &&& exists|i: int|
                    0 <= i < rows.len() && merged(rows)[f] == repaired(#[trigger] rows[i])
            },
        forall|i: int|
            0 <= i < rows.len() ==> {
                let row = repaired(#[trigger] rows[i]);
                merged(rows).contains_key(row.folder) && merged(rows)[row.folder].updated
                    >= row.updated
            },
    decreases rows.len(),
{
    if rows.len() > 0 {
        let front = rows.drop_last();
        lemma_merged(front);
        lemma_repaired_is_settled(rows.last());
        assert forall|f: Seq<char>| #[trigger] merged(rows).contains_key(f) implies {
            &&& merged(rows)[f].folder == f
            &&& repaired(merged(rows)[f]) == merged(rows)[f]
            &&& exists|i: int|
                0 <= i < rows.len() && merged(rows)[f] == repaired(#[trigger] rows[i])
        } by {
            if merged(rows)[f] == repaired(rows.last()) && f == repaired(rows.last()).folder {
                assert(merged(rows)[f] == repaired(rows[rows.len() - 1]));
            } else {
                assert(merged(front).contains_key(f));
                let i = choose|i: int|
                    0 <= i < front.len() && merged(front)[f] == repaired(#[trigger] front[i]);
                assert(merged(rows)[f] == repaired(rows[i]));
            }
        }
        assert forall|i: int| 0 <= i < rows.len() implies {
            let row = repaired(#[trigger] rows[i]);
            merged(rows).contains_key(row.folder) && merged(rows)[row.folder].updated >= row.updated
        } by {
            if i < front.len() {
                assert(front[i] == rows[i]);
            }
        }
    }
}

/// Every row survives repair under its canonical folder, unless another row for
/// that folder is at least as recent, and nothing else is stored.
pub proof fn law_the_most_recent_cover_wins(rows: Seq<CoverRow>, f: Seq<char>, i: int)
    requires
        0 <= i < rows.len(),
    ensures
        merged(rows).contains_key(repaired(rows[i]).folder),
        merged(rows)[repaired(rows[i]).folder].updated >= rows[i].updated,
        merged(rows).contains_key(f) ==> exists|j: int|
            0 <= j < rows.len() && merged(rows)[f] == repaired(#[trigger] rows[j])
                && merged(rows)[f].folder == f,
{
    lemma_merged(rows);
}

/// A repaired table needs no further repair.
pub proof fn law_repair_is_idempotent(rows: Seq<CoverRow>, table: Seq<CoverRow>)
    requires
        tabulates(table, merged(rows)),
    ensures
        changed_count(table) == 0,
{
    lemma_merged(rows);
    assert forall|i: int| 0 <= i < table.len() implies repaired(#[trigger] table[i]) == table[i] by {
        assert(merged(rows).contains_key(table[i].folder));
    }
    law_a_clean_table_is_left_alone(table);
}

/// Repair changes nothing exactly where every path is in canonical form.
pub proof fn law_a_clean_table_is_left_alone(rows: Seq<CoverRow>)
    ensures
        changed_count(rows) == 0 <==> forall|i: int|
            0 <= i < rows.len() ==> repaired(#[trigger] rows[i]) == rows[i],
    decreases rows.len(),
{
    if rows.len() > 0 {
        let front = rows.drop_last();
        law_a_clean_table_is_left_alone(front);
        if changed_count(rows) == 0 {
            assert forall|i: int| 0 <= i < rows.len() implies repaired(#[trigger] rows[i])
                == rows[i] by {
                if i < front.len() {
                    assert(front[i] == rows[i]);
                }
            }
        }
        if forall|i: int| 0 <= i < rows.len() ==> repaired(#[trigger] rows[i]) == rows[i] {
            assert forall|i: int| 0 <= i < front.len() implies repaired(#[trigger] front[i])
                == front[i] by {
                assert(front[i] == rows[i]);
            }
            assert(repaired(rows[rows.len() - 1]) == rows.last());
        }
    }
}

/// What is written is read back, and no other row is affected.
pub proof fn law_a_write_is_read_back(
    t: Tables,
    folder: Seq<char>,
    image: Seq<char>,
    photo: Seq<char>,
    meta: PhotoMeta,
    other: Seq<char>,
)
    ensures
        applied(t, Change::SetCover { folder, image }).covers[folder] == image,
        applied(t, Change::SetMetadata { photo, meta }).metadata[photo] == meta,
        other != folder ==> applied(t, Change::SetCover { folder, image }).covers.contains_key(
            other,
        ) == t.covers.contains_key(other) && applied(
            t,
            Change::SetCover { folder, image },
        ).covers[other] == t.covers[other],
        other != photo ==> applied(t, Change::SetMetadata { photo, meta }).metadata.contains_key(
            other,
        ) == t.metadata.contains_key(other) && applied(
            t,
            Change::SetMetadata { photo, meta },
        ).metadata[other] == t.metadata[other],
{
}

/// Forgetting a folder's metadata forgets exactly the photos inside it: a
/// sibling whose name merely begins alike is kept, whatever characters the
/// names hold.
pub proof fn law_a_prefix_delete_takes_only_the_subtree(
    t: Tables,
    folder: Seq<char>,
    photo: Seq<char>,
)
    ensures
        applied(t, Change::DeleteMetadataUnder { folder }).metadata.contains_key(photo)
            <==> t.metadata.contains_key(photo) && !is_under(photo, folder),
        is_under(photo, folder) ==> photo.len() > folder.len() && photo[folder.len() as int] == '/',
{
    if is_under(photo, folder) {
        let prefix = folder.push('/');
        assert(prefix =~= photo.subrange(0, prefix.len() as int));
        assert(photo[folder.len() as int] == prefix[folder.len() as int]);
    }
}

/// What each deletion forgets, and that it forgets nothing else: the cover of one
/// folder; that cover only while it is the image named; every cover whose image is
/// inside a folder; the metadata of one photo; that of every photo inside a folder.
pub proof fn law_what_each_deletion_forgets(
    t: Tables,
    path: Seq<char>,
    image: Seq<char>,
    g: Seq<char>,
)
    ensures
        ({
            let cover = applied(t, Change::DeleteCover { folder: path });
            let matching = applied(t, Change::DeleteCoverIfMatches { folder: path, image });
            let covers = applied(t, Change::DeleteCoversUnder { folder: path });
            let row = applied(t, Change::DeleteMetadata { photo: path });
            let rows = applied(t, Change::DeleteMetadataUnder { folder: path });
            let inside = path + "/"@;
            &&& cover.covers.contains_key(g) <==> t.covers.contains_key(g) && g != path
            &&& matching.covers.contains_key(g) <==> t.covers.contains_key(g) && !(g == path
                && t.covers[g] == image)
            &&& covers.covers.contains_key(g) <==> t.covers.contains_key(g)
                && !inside.is_prefix_of(t.covers[g])
            &&& row.metadata.contains_key(g) <==> t.metadata.contains_key(g) && g != path
            &&& rows.metadata.contains_key(g) <==> t.metadata.contains_key(g)
                && !inside.is_prefix_of(g)
            &&& cover.covers.contains_key(g) ==> cover.covers[g] == t.covers[g]
            &&& matching.covers.contains_key(g) ==> matching.covers[g] == t.covers[g]
            &&& covers.covers.contains_key(g) ==> covers.covers[g] == t.covers[g]
            &&& row.metadata.contains_key(g) ==> row.metadata[g] == t.metadata[g]
            &&& rows.metadata.contains_key(g) ==> rows.metadata[g] == t.metadata[g]
            &&& cover.metadata == t.metadata && matching.metadata == t.metadata && covers.metadata
                == t.metadata
            &&& row.covers == t.covers && rows.covers == t.covers
        }),
{
    reveal_strlit("/");
    assert(path + "/"@ =~= path.push('/'));
}

/// What one more row does to a repaired table: it is stored under the canonical form
/// of its folder, with that of its image, unless a row more recent than it is there
/// already. Other folders are not affected.
pub proof fn law_what_one_more_row_does(rows: Seq<CoverRow>, row: CoverRow, other: Seq<char>)
    ensures
        ({
            let folder = util::normalized(row.folder);
            let before = merged(rows);
            let after = merged(rows.push(row));
            let newer = before.contains_key(folder) && before[folder].updated > row.updated;
            &&& after.contains_key(folder)
            &&& newer ==> after[folder] == before[folder]
            &&& !newer ==> after[folder].folder == folder && after[folder].image
                == util::normalized(row.image) && after[folder].updated == row.updated
            &&& other != folder ==> after.contains_key(other) == before.contains_key(other)
                && after[other] == before[other]
            &&& changed_count(rows.push(row)) == changed_count(rows) + if folder == row.folder
                && util::normalized(row.image) == row.image {
                0int
            } else {
                1
            }
        }),
        merged(Seq::empty()) == Map::<Seq<char>, CoverRow>::empty(),
        changed_count(Seq::empty()) == 0,
{
    assert(rows.push(row).drop_last() =~= rows);
}

} // verus!
