//! The persistent hash store: normalized (path, size, digest) to
//! perceptual-hash associations, plus cached duplicate groups guarded
//! by a staleness fingerprint.
//!
//! The store keeps an in-memory working copy of the three tables and
//! mirrors every mutation to an SQLite database through trusted
//! wrappers; all contracts are stated over the in-memory model. The
//! model invariant: the file table is strictly sorted by path (so
//! paths are unique), content digests in the hash table are unique,
//! every file row references an existing hash row, and no hash row is
//! orphaned (referential integrity with eager garbage collection).

use vstd::prelude::*;

use crate::errors::CoreError;
use crate::order::{lex_lt, str_eq, str_lt};

verus! {

// ---------------------------------------------------------------------------
// Rows and their mathematical views
// ---------------------------------------------------------------------------
/// A row of the file table: one known path with the size and content
/// digest it had when hashed, referencing its hash row by digest.
pub struct FileRow {
    pub path: String,
    pub size: u64,
    pub sha256: String,
}

/// A row of the hash table: one content digest with the encoded
/// canonical perceptual hash of that content.
pub struct HashRow {
    pub sha256: String,
    pub perceptual_hash: String,
}

/// A cached duplicate group for one threshold, stamped with the store
/// fingerprint current when it was computed.
pub struct GroupRow {
    pub threshold: u32,
    pub fingerprint: String,
    pub members: Vec<String>,
}

pub struct FileRowV {
    pub path: Seq<char>,
    pub size: u64,
    pub sha256: Seq<char>,
}

pub struct HashRowV {
    pub sha256: Seq<char>,
    pub perceptual_hash: Seq<char>,
}

pub struct GroupRowV {
    pub threshold: u32,
    pub fingerprint: Seq<char>,
    pub members: Seq<Seq<char>>,
}

impl View for FileRow {
    type V = FileRowV;

    open spec fn view(&self) -> FileRowV {
        FileRowV { path: self.path@, size: self.size, sha256: self.sha256@ }
    }
}

impl DeepView for FileRow {
    type V = FileRowV;

    open spec fn deep_view(&self) -> FileRowV {
        self@
    }
}

impl View for HashRow {
    type V = HashRowV;

    open spec fn view(&self) -> HashRowV {
        HashRowV { sha256: self.sha256@, perceptual_hash: self.perceptual_hash@ }
    }
}

impl DeepView for HashRow {
    type V = HashRowV;

    open spec fn deep_view(&self) -> HashRowV {
        self@
    }
}

impl View for GroupRow {
    type V = GroupRowV;

    open spec fn view(&self) -> GroupRowV {
        GroupRowV {
            threshold: self.threshold,
            fingerprint: self.fingerprint@,
            members: self.members.deep_view(),
        }
    }
}

impl DeepView for GroupRow {
    type V = GroupRowV;

    open spec fn deep_view(&self) -> GroupRowV {
        self@
    }
}

/// The mathematical content of the store.
pub struct StoreModel {
    pub files: Seq<FileRowV>,
    pub hashes: Seq<HashRowV>,
    pub groups: Seq<GroupRowV>,
}

// ---------------------------------------------------------------------------
// Well-formedness
// ---------------------------------------------------------------------------
/// The file table is strictly sorted by path.
pub open spec fn files_sorted(files: Seq<FileRowV>) -> bool {
    forall|i: int, j: int|
        0 <= i < j < files.len() ==> lex_lt(#[trigger] files[i].path, #[trigger] files[j].path)
}

/// All content digests of the hash table are distinct.
pub open spec fn shas_distinct(hashes: Seq<HashRowV>) -> bool {
    forall|i: int, j: int|
        0 <= i < j < hashes.len() ==> (#[trigger] hashes[i].sha256) != (#[trigger] hashes[j].sha256)
}

/// Whether the hash table has a row for `sha`.
pub open spec fn has_sha(hashes: Seq<HashRowV>, sha: Seq<char>) -> bool {
    exists|i: int| 0 <= i < hashes.len() && (#[trigger] hashes[i].sha256) == sha
}

/// Whether some file row references `sha`.
pub open spec fn sha_referenced(files: Seq<FileRowV>, sha: Seq<char>) -> bool {
    exists|i: int| 0 <= i < files.len() && (#[trigger] files[i].sha256) == sha
}

/// The store invariant.
pub open spec fn model_wf(m: StoreModel) -> bool {
    &&& files_sorted(m.files)
    &&& shas_distinct(m.hashes)
    &&& (forall|i: int|
        0 <= i < m.files.len() ==> has_sha(m.hashes, (#[trigger] m.files[i]).sha256))
    &&& (forall|i: int|
        0 <= i < m.hashes.len() ==> sha_referenced(m.files, (#[trigger] m.hashes[i]).sha256))
    &&& (forall|i: int| 0 <= i < m.groups.len() ==> (#[trigger] m.groups[i]).members.len() >= 2)
}

// ---------------------------------------------------------------------------
// Spec-level lookups
// ---------------------------------------------------------------------------
/// The first file row whose path is `path`.
pub open spec fn find_file(files: Seq<FileRowV>, path: Seq<char>) -> Option<FileRowV>
    decreases files.len(),
{
    if files.len() == 0 {
        None
    } else if files[0].path == path {
        Some(files[0])
    } else {
        find_file(files.drop_first(), path)
    }
}

/// The perceptual hash the hash table holds for `sha`.
pub open spec fn phash_for(hashes: Seq<HashRowV>, sha: Seq<char>) -> Option<Seq<char>>
    decreases hashes.len(),
{
    if hashes.len() == 0 {
        None
    } else if hashes[0].sha256 == sha {
        Some(hashes[0].perceptual_hash)
    } else {
        phash_for(hashes.drop_first(), sha)
    }
}

proof fn lemma_find_file_skip(files: Seq<FileRowV>, path: Seq<char>, i: int)
    requires
        0 <= i <= files.len(),
        forall|j: int| 0 <= j < i ==> (#[trigger] files[j].path) != path,
    ensures
        find_file(files, path) == find_file(files.skip(i), path),
    decreases i,
{
    if i == 0 {
        assert(files.skip(0) =~= files);
    } else {
        lemma_find_file_skip(files.drop_first(), path, i - 1);
        assert(files.drop_first().skip(i - 1) =~= files.skip(i));
    }
}

proof fn lemma_phash_for_skip(hashes: Seq<HashRowV>, sha: Seq<char>, i: int)
    requires
        0 <= i <= hashes.len(),
        forall|j: int| 0 <= j < i ==> (#[trigger] hashes[j].sha256) != sha,
    ensures
        phash_for(hashes, sha) == phash_for(hashes.skip(i), sha),
    decreases i,
{
    if i == 0 {
        assert(hashes.skip(0) =~= hashes);
    } else {
        lemma_phash_for_skip(hashes.drop_first(), sha, i - 1);
        assert(hashes.drop_first().skip(i - 1) =~= hashes.skip(i));
    }
}

/// `find_file` finds a row exactly when some row has the path.
pub proof fn lemma_find_file_present(files: Seq<FileRowV>, path: Seq<char>)
    ensures
        (find_file(files, path) is Some) <==> (exists|i: int|
            0 <= i < files.len() && (#[trigger] files[i].path) == path),
        find_file(files, path) is Some ==> (exists|i: int|
            0 <= i < files.len() && (#[trigger] files[i]) == find_file(files, path)->0
                && files[i].path == path),
    decreases files.len(),
{
    if files.len() != 0 && files[0].path != path {
        lemma_find_file_present(files.drop_first(), path);
        if find_file(files.drop_first(), path) is Some {
            let i = choose|i: int|
                0 <= i < files.drop_first().len() && (#[trigger] files.drop_first()[i])
                    == find_file(files.drop_first(), path)->0 && files.drop_first()[i].path == path;
            assert(files[i + 1] == files.drop_first()[i]);
        }
        if exists|i: int| 0 <= i < files.len() && (#[trigger] files[i].path) == path {
            let i = choose|i: int| 0 <= i < files.len() && (#[trigger] files[i].path) == path;
            assert(files.drop_first()[i - 1] == files[i]);
        }
    }
}

/// `phash_for` finds a row exactly when the digest is present.
pub proof fn lemma_phash_for_present(hashes: Seq<HashRowV>, sha: Seq<char>)
    ensures
        (phash_for(hashes, sha) is Some) <==> has_sha(hashes, sha),
    decreases hashes.len(),
{
    if hashes.len() != 0 && hashes[0].sha256 != sha {
        lemma_phash_for_present(hashes.drop_first(), sha);
        if has_sha(hashes.drop_first(), sha) {
            let i = choose|i: int|
                0 <= i < hashes.drop_first().len() && (#[trigger] hashes.drop_first()[i].sha256)
                    == sha;
            assert(hashes[i + 1].sha256 == sha);
        }
        if has_sha(hashes, sha) {
            let i = choose|i: int| 0 <= i < hashes.len() && (#[trigger] hashes[i].sha256) == sha;
            assert(hashes.drop_first()[i - 1].sha256 == sha);
        }
    }
}

// ---------------------------------------------------------------------------
// Trusted declarations for the persistence layer
// ---------------------------------------------------------------------------
#[verifier::external_type_specification]
#[verifier::external_body]
pub struct ExConnection(rusqlite::Connection);

#[verifier::external_type_specification]
#[verifier::external_body]
pub struct ExRusqliteError(rusqlite::Error);

/// Relies on rusqlite's `Connection::open`: opens or creates the
/// SQLite database at `path` (`:memory:` opens a transient store).
#[verifier::external_body]
fn db_open(path: &String) -> Result<rusqlite::Connection, rusqlite::Error> {
    rusqlite::Connection::open(path.as_str())
}

/// Relies on rusqlite's `Connection::execute_batch`: creates the four
/// tables of the current schema if absent and enables foreign keys.
#[verifier::external_body]
fn db_init_schema(conn: &rusqlite::Connection) -> Result<(), rusqlite::Error> {
    conn.execute_batch(
        "CREATE TABLE IF NOT EXISTS perceptual_hashes (id INTEGER PRIMARY KEY, sha256 TEXT UNIQUE NOT NULL, perceptual_hash TEXT NOT NULL, created_at DATETIME DEFAULT CURRENT_TIMESTAMP);
         CREATE TABLE IF NOT EXISTS files (id INTEGER PRIMARY KEY, path TEXT UNIQUE NOT NULL, size INTEGER NOT NULL, perceptual_hash_id INTEGER NOT NULL, created_at DATETIME DEFAULT CURRENT_TIMESTAMP, FOREIGN KEY (perceptual_hash_id) REFERENCES perceptual_hashes(id));
         CREATE TABLE IF NOT EXISTS duplicate_groups (id INTEGER PRIMARY KEY, threshold INTEGER NOT NULL, group_hash TEXT NOT NULL, created_at DATETIME DEFAULT CURRENT_TIMESTAMP);
         CREATE TABLE IF NOT EXISTS duplicate_group_files (group_id INTEGER NOT NULL, file_path TEXT NOT NULL, PRIMARY KEY (group_id, file_path), FOREIGN KEY (group_id) REFERENCES duplicate_groups(id) ON DELETE CASCADE);
         PRAGMA foreign_keys = ON;",
    )
}

/// Relies on rusqlite's `Statement::exists`: whether the legacy flat
/// table `file_hashes` is present.
#[verifier::external_body]
fn db_has_legacy_table(conn: &rusqlite::Connection) -> Result<bool, rusqlite::Error> {
    let mut stmt = conn.prepare(
        "SELECT name FROM sqlite_master WHERE type='table' AND name='file_hashes'",
    )?;
    stmt.exists(())
}

/// Relies on rusqlite's `Statement::query_map`: all rows of the legacy
/// flat table, as (path, size, digest, raw hash bytes).
#[verifier::external_body]
fn db_read_legacy_rows(
    conn: &rusqlite::Connection,
) -> Result<Vec<(String, i64, String, Vec<u8>)>, rusqlite::Error> {
    let mut stmt = conn.prepare("SELECT path, size, sha256, perceptual_hash FROM file_hashes")?;
    let rows = stmt.query_map(
        (),
        |row| Ok((row.get(0)?, row.get(1)?, row.get(2)?, row.get(3)?)),
    )?;
    rows.collect()
}

/// Relies on rusqlite's `Connection::execute`: drops the legacy table.
#[verifier::external_body]
fn db_drop_legacy(conn: &rusqlite::Connection) -> Result<(), rusqlite::Error> {
    conn.execute("DROP TABLE file_hashes", ())?;
    Ok(())
}

/// Relies on rusqlite's `Statement::query_map` over `PRAGMA
/// table_info`: the (name, declared type) of each column of a table.
#[verifier::external_body]
fn db_table_columns(
    conn: &rusqlite::Connection,
    table: &String,
) -> Result<Vec<(String, String)>, rusqlite::Error> {
    let mut stmt = conn.prepare(&format!("PRAGMA table_info({})", table))?;
    let rows = stmt.query_map((), |row| Ok((row.get(1)?, row.get(2)?)))?;
    rows.collect()
}

/// Relies on rusqlite's `Connection::execute_batch`: drops the
/// normalized tables so the schema can be recreated.
#[verifier::external_body]
fn db_drop_normalized(conn: &rusqlite::Connection) -> Result<(), rusqlite::Error> {
    conn.execute_batch("DROP TABLE IF EXISTS files; DROP TABLE IF EXISTS perceptual_hashes;")
}

/// Relies on rusqlite's `Statement::query_map`: every known
/// association, joining each file row with its hash row.
#[verifier::external_body]
fn db_read_entries(
    conn: &rusqlite::Connection,
) -> Result<Vec<(String, i64, String, String)>, rusqlite::Error> {
    let mut stmt = conn.prepare(
        "SELECT f.path, f.size, ph.sha256, ph.perceptual_hash FROM files f JOIN perceptual_hashes ph ON f.perceptual_hash_id = ph.id",
    )?;
    let rows = stmt.query_map(
        (),
        |row| Ok((row.get(0)?, row.get(1)?, row.get(2)?, row.get(3)?)),
    )?;
    rows.collect()
}

/// Relies on rusqlite's `Connection::execute`: upserts one association
/// (insert-or-ignore the hash row, insert-or-replace the file row).
#[verifier::external_body]
fn db_record_entry(
    conn: &rusqlite::Connection,
    path: &String,
    size: u64,
    sha256: &String,
    perceptual_hash: &String,
) -> Result<(), rusqlite::Error> {
    conn.execute(
        "INSERT OR IGNORE INTO perceptual_hashes (sha256, perceptual_hash) VALUES (?1, ?2)",
        (sha256, perceptual_hash),
    )?;
    let id: i64 = conn.query_row(
        "SELECT id FROM perceptual_hashes WHERE sha256 = ?1",
        (sha256,),
        |row| row.get(0),
    )?;
    conn.execute(
        "INSERT OR REPLACE INTO files (path, size, perceptual_hash_id) VALUES (?1, ?2, ?3)",
        (path, size as i64, id),
    )?;
    Ok(())
}

/// Relies on rusqlite's `Connection::execute`: deletes the file row
/// for `path`, if any.
#[verifier::external_body]
fn db_delete_file(conn: &rusqlite::Connection, path: &String) -> Result<(), rusqlite::Error> {
    conn.execute("DELETE FROM files WHERE path = ?1", (path,))?;
    Ok(())
}

/// Relies on rusqlite's `Connection::execute`: deletes hash rows no
/// file row references.
#[verifier::external_body]
fn db_delete_orphan_hashes(conn: &rusqlite::Connection) -> Result<usize, rusqlite::Error> {
    conn.execute(
        "DELETE FROM perceptual_hashes WHERE id NOT IN (SELECT DISTINCT perceptual_hash_id FROM files)",
        (),
    )
}

/// Relies on rusqlite's `Connection::execute`: deletes all cached
/// duplicate groups (group-file links cascade).
#[verifier::external_body]
fn db_clear_groups(conn: &rusqlite::Connection) -> Result<usize, rusqlite::Error> {
    conn.execute("DELETE FROM duplicate_groups", ())
}

/// Relies on rusqlite's `Connection::execute`: deletes the cached
/// groups of one threshold.
#[verifier::external_body]
fn db_delete_groups_for_threshold(
    conn: &rusqlite::Connection,
    threshold: u32,
) -> Result<(), rusqlite::Error> {
    conn.execute("DELETE FROM duplicate_groups WHERE threshold = ?1", (threshold,))?;
    Ok(())
}

/// Relies on rusqlite's `Connection::execute` and
/// `Connection::last_insert_rowid`: inserts one group row and returns
/// its id.
#[verifier::external_body]
fn db_insert_group(
    conn: &rusqlite::Connection,
    threshold: u32,
    fingerprint: &String,
) -> Result<i64, rusqlite::Error> {
    conn.execute(
        "INSERT INTO duplicate_groups (threshold, group_hash) VALUES (?1, ?2)",
        (threshold, fingerprint),
    )?;
    Ok(conn.last_insert_rowid())
}

/// Relies on rusqlite's `Connection::execute`: links one file path to
/// a group row.
#[verifier::external_body]
fn db_insert_group_file(
    conn: &rusqlite::Connection,
    group_id: i64,
    path: &String,
) -> Result<(), rusqlite::Error> {
    conn.execute(
        "INSERT INTO duplicate_group_files (group_id, file_path) VALUES (?1, ?2)",
        (group_id, path),
    )?;
    Ok(())
}

/// Relies on rusqlite's `Statement::query_map`: all cached group rows
/// as (id, threshold, fingerprint).
#[verifier::external_body]
fn db_read_group_rows(
    conn: &rusqlite::Connection,
) -> Result<Vec<(i64, i64, String)>, rusqlite::Error> {
    let mut stmt = conn.prepare("SELECT id, threshold, group_hash FROM duplicate_groups")?;
    let rows = stmt.query_map((), |row| Ok((row.get(0)?, row.get(1)?, row.get(2)?)))?;
    rows.collect()
}

/// Relies on rusqlite's `Statement::query_map`: all group-file links
/// as (group id, path).
#[verifier::external_body]
fn db_read_group_files(
    conn: &rusqlite::Connection,
) -> Result<Vec<(i64, String)>, rusqlite::Error> {
    let mut stmt = conn.prepare("SELECT group_id, file_path FROM duplicate_group_files")?;
    let rows = stmt.query_map((), |row| Ok((row.get(0)?, row.get(1)?)))?;
    rows.collect()
}

/// Relies on rusqlite's `Connection::execute_batch`: starts a
/// transaction.
#[verifier::external_body]
fn db_begin(conn: &rusqlite::Connection) -> Result<(), rusqlite::Error> {
    conn.execute_batch("BEGIN")
}

/// Relies on rusqlite's `Connection::execute_batch`: commits the open
/// transaction.
#[verifier::external_body]
fn db_commit(conn: &rusqlite::Connection) -> Result<(), rusqlite::Error> {
    conn.execute_batch("COMMIT")
}

/// Relies on rusqlite's `Connection::execute_batch`: rolls the open
/// transaction back, discarding its writes.
#[verifier::external_body]
fn db_rollback(conn: &rusqlite::Connection) -> Result<(), rusqlite::Error> {
    conn.execute_batch("ROLLBACK")
}

/// Relies on rusqlite's `Error` `Display` impl: a description of the
/// failure.
#[verifier::external_body]
fn db_err_detail(e: &rusqlite::Error) -> String {
    e.to_string()
}

/// Relies on std's `String::from_utf8`: `Some` exactly when the bytes
/// are valid UTF-8, decoded to the characters they spell.
#[verifier::external_body]
fn bytes_to_utf8(bytes: Vec<u8>) -> (r: Option<String>)
    ensures
        r is Some <==> vstd::utf8::valid_utf8(bytes@),
        r is Some ==> r->0@ == vstd::utf8::decode_utf8(bytes@),
{
    String::from_utf8(bytes).ok()
}

/// Relies on dirs' `cache_dir`: the process-standard cache directory,
/// if the platform defines one. The result depends on the environment,
/// so nothing is promised of it.
#[verifier::external_body]
fn platform_cache_dir() -> Option<String> {
    dirs::cache_dir().map(|p| p.to_string_lossy().into_owned())
}

/// A byte-for-byte copy.
fn copy_bytes(v: &Vec<u8>) -> (r: Vec<u8>)
    ensures
        r@ == v@,
{
    let mut out: Vec<u8> = Vec::new();
    let mut i: usize = 0;
    while i < v.len()
        invariant
            i <= v@.len(),
            out@.len() == i,
            forall|j: int| 0 <= j < i ==> (#[trigger] out@[j]) == v@[j],
        decreases v@.len() - i,
    {
        out.push(v[i]);
        i = i + 1;
    }
    proof {
        assert(out@ =~= v@);
    }
    out
}

/// A stored size as the store holds it: negative values, which only
/// a corrupt row can carry, clamp to zero.
pub open spec fn clamped_size(s: i64) -> u64 {
    if s >= 0 {
        s as u64
    } else {
        0
    }
}

/// The mathematical view of one recorded file.
pub struct FileMetadataV {
    pub path: Seq<char>,
    pub size: u64,
    pub sha256: Seq<char>,
    pub perceptual_hash: Seq<char>,
}

/// The legacy rows whose stored hash is text: one flat-table row is
/// adoptable only if its raw hash bytes are valid UTF-8.
pub open spec fn legacy_rows_kept(rows: Seq<(Seq<char>, i64, Seq<char>, Seq<u8>)>) -> Seq<
    (Seq<char>, i64, Seq<char>, Seq<u8>),
> {
    rows.filter(|r: (Seq<char>, i64, Seq<char>, Seq<u8>)| vstd::utf8::valid_utf8(r.3))
}

/// What the legacy flat table converts to: every adoptable row as a
/// recordable association, sizes clamped and the hash decoded from
/// its bytes.
pub open spec fn legacy_converted(rows: Seq<(Seq<char>, i64, Seq<char>, Seq<u8>)>) -> Seq<
    FileMetadataV,
> {
    legacy_rows_kept(rows).map_values(
        |r: (Seq<char>, i64, Seq<char>, Seq<u8>)|
            FileMetadataV {
                path: r.0,
                size: clamped_size(r.1),
                sha256: r.2,
                perceptual_hash: vstd::utf8::decode_utf8(r.3),
            },
    )
}

/// Whether a read-back column listing shows the hash column in the
/// raw binary encoding: some column named `perceptual_hash` whose
/// declared type upper-cases to `BLOB`.
pub open spec fn blob_column_in(columns: Seq<(Seq<char>, Seq<char>)>) -> bool {
    exists|i: int|
        0 <= i < columns.len() && (#[trigger] columns[i]).0 == seq![
            'p', 'e', 'r', 'c', 'e', 'p', 't', 'u', 'a', 'l', '_', 'h', 'a', 's', 'h',
        ] && eq_upper(columns[i].1, seq!['B', 'L', 'O', 'B'])
}

/// Decides stage two of the migration from the read-back column
/// listing alone.
pub fn blob_column_present(columns: &Vec<(String, String)>) -> (r: bool)
    ensures
        r == blob_column_in(columns.deep_view()),
{
    proof {
        reveal_strlit("perceptual_hash");
        reveal_strlit("BLOB");
        assert("perceptual_hash"@ =~= seq![
            'p', 'e', 'r', 'c', 'e', 'p', 't', 'u', 'a', 'l', '_', 'h', 'a', 's', 'h',
        ]);
        assert("BLOB"@ =~= seq!['B', 'L', 'O', 'B']);
    }
    let mut i: usize = 0;
    while i < columns.len()
        invariant
            i <= columns@.len(),
            "perceptual_hash"@ == seq![
                'p', 'e', 'r', 'c', 'e', 'p', 't', 'u', 'a', 'l', '_', 'h', 'a', 's', 'h',
            ],
            "BLOB"@ == seq!['B', 'L', 'O', 'B'],
            forall|j: int|
                0 <= j < i ==> !((#[trigger] columns.deep_view()[j]).0 == seq![
                    'p', 'e', 'r', 'c', 'e', 'p', 't', 'u', 'a', 'l', '_', 'h', 'a', 's', 'h',
                ] && eq_upper(columns.deep_view()[j].1, seq!['B', 'L', 'O', 'B'])),
        decreases columns@.len() - i,
    {
        if str_eq(columns[i].0.as_str(), "perceptual_hash") && ascii_eq_upper(
            columns[i].1.as_str(),
            "BLOB",
        ) {
            proof {
                assert(columns.deep_view()[i as int].0 == seq![
                    'p', 'e', 'r', 'c', 'e', 'p', 't', 'u', 'a', 'l', '_', 'h', 'a', 's', 'h',
                ]);
            }
            return true;
        }
        i = i + 1;
    }
    false
}

/// Converts the legacy flat table's rows, exactly as
/// [`legacy_converted`] spells out: rows whose raw hash is not text
/// are dropped, negative sizes clamp to zero.
pub fn convert_legacy_rows(rows: &Vec<(String, i64, String, Vec<u8>)>) -> (r: Vec<FileMetadata>)
    ensures
        r.deep_view() == legacy_converted(rows.deep_view()),
{
    let mut out: Vec<FileMetadata> = Vec::new();
    let mut i: usize = 0;
    proof {
        reveal(Seq::filter);
        assert(out.deep_view() =~= legacy_converted(rows.deep_view().subrange(0, 0)));
    }
    while i < rows.len()
        invariant
            i <= rows@.len(),
            out.deep_view() == legacy_converted(rows.deep_view().subrange(0, i as int)),
        decreases rows@.len() - i,
    {
        let ghost pre = rows.deep_view().subrange(0, i as int);
        let ghost cur = rows.deep_view().subrange(0, i as int + 1);
        let ghost rowv = rows.deep_view()[i as int];
        proof {
            reveal(Seq::filter);
            assert(cur.drop_last() =~= pre);
            assert(cur.last() == rowv);
            assert(rowv == rows@[i as int].deep_view());
            assert(rowv.0 == rows@[i as int].0@);
            assert(rowv.1 == rows@[i as int].1);
            assert(rowv.2 == rows@[i as int].2@);
            assert(rowv.3 =~= rows@[i as int].3@);
        }
        match bytes_to_utf8(copy_bytes(&rows[i].3)) {
            Some(perceptual_hash) => {
                let size: u64 = if rows[i].1 >= 0 {
                    rows[i].1 as u64
                } else {
                    0
                };
                let ghost before = out.deep_view();
                out.push(
                    FileMetadata {
                        path: rows[i].0.clone(),
                        size,
                        sha256: rows[i].2.clone(),
                        perceptual_hash,
                    },
                );
                proof {
                    assert(vstd::utf8::valid_utf8(rows.deep_view()[i as int].3));
                    assert(legacy_rows_kept(cur) =~= legacy_rows_kept(pre).push(
                        rows.deep_view()[i as int],
                    ));
                    assert(out.deep_view() =~= before.push(
                        FileMetadataV {
                            path: rows.deep_view()[i as int].0,
                            size: clamped_size(rows.deep_view()[i as int].1),
                            sha256: rows.deep_view()[i as int].2,
                            perceptual_hash: vstd::utf8::decode_utf8(
                                rows.deep_view()[i as int].3,
                            ),
                        },
                    ));
                    assert(out.deep_view() =~= legacy_converted(cur));
                }
            },
            None => {
                proof {
                    assert(!vstd::utf8::valid_utf8(rows.deep_view()[i as int].3));
                    assert(legacy_rows_kept(cur) =~= legacy_rows_kept(pre));
                    assert(out.deep_view() =~= legacy_converted(cur));
                }
            },
        }
        i = i + 1;
    }
    proof {
        assert(rows.deep_view().subrange(0, rows.deep_view().len() as int) =~= rows.deep_view());
    }
    out
}

/// Builds a library `Store` error out of a database failure.
fn store_err(e: &rusqlite::Error) -> (r: CoreError)
    ensures
        r is Store,
{
    CoreError::Store { detail: db_err_detail(e) }
}

// ---------------------------------------------------------------------------
// What opening adopts from disk
// ---------------------------------------------------------------------------
/// One adoption step: a row read back from disk enters the working
/// copy only if its path is new, and its hash row is created only if
/// its digest is new (first row wins, as the unique columns demand).
pub open spec fn adopt_step(
    m: StoreModel,
    path: Seq<char>,
    size: u64,
    sha: Seq<char>,
    phash: Seq<char>,
) -> StoreModel {
    if find_file(m.files, path) is Some {
        m
    } else {
        StoreModel {
            files: insert_file(m.files, FileRowV { path, size, sha256: sha }),
            hashes: if has_sha(m.hashes, sha) {
                m.hashes
            } else {
                m.hashes.push(HashRowV { sha256: sha, perceptual_hash: phash })
            },
            groups: m.groups,
        }
    }
}

/// The file and hash tables adopted from the read-back associations,
/// in row order, sizes clamped.
pub open spec fn adopt_entries(rows: Seq<(Seq<char>, i64, Seq<char>, Seq<char>)>) -> StoreModel
    decreases rows.len(),
{
    if rows.len() == 0 {
        StoreModel {
            files: Seq::empty(),
            hashes: Seq::empty(),
            groups: Seq::empty(),
        }
    } else {
        let m = adopt_entries(rows.drop_last());
        let r = rows.last();
        adopt_step(m, r.0, clamped_size(r.1), r.2, r.3)
    }
}

/// Adopted associations carry no group rows.
pub proof fn lemma_adopt_entries_groups(rows: Seq<(Seq<char>, i64, Seq<char>, Seq<char>)>)
    ensures
        adopt_entries(rows).groups == Seq::<GroupRowV>::empty(),
    decreases rows.len(),
{
    if rows.len() > 0 {
        lemma_adopt_entries_groups(rows.drop_last());
    }
}

/// The member paths linked to one stored group id, in link order.
pub open spec fn members_for(gid: i64, links: Seq<(i64, Seq<char>)>) -> Seq<Seq<char>> {
    links.filter(|l: (i64, Seq<char>)| l.0 == gid).map_values(|l: (i64, Seq<char>)| l.1)
}

/// The cached group rows adopted from disk: those with an in-range
/// threshold and at least two linked members, in row order.
pub open spec fn adopt_groups(rows: Seq<(i64, i64, Seq<char>)>, links: Seq<(i64, Seq<char>)>) -> Seq<
    GroupRowV,
>
    decreases rows.len(),
{
    if rows.len() == 0 {
        Seq::empty()
    } else {
        let pre = adopt_groups(rows.drop_last(), links);
        let r = rows.last();
        let ms = members_for(r.0, links);
        if 0 <= r.1 <= u32::MAX && ms.len() >= 2 {
            pre.push(GroupRowV { threshold: r.1 as u32, fingerprint: r.2, members: ms })
        } else {
            pre
        }
    }
}

/// What opening builds out of everything the database holds.
pub open spec fn loaded_model(
    entries: Seq<(Seq<char>, i64, Seq<char>, Seq<char>)>,
    group_rows: Seq<(i64, i64, Seq<char>)>,
    group_links: Seq<(i64, Seq<char>)>,
) -> StoreModel {
    StoreModel {
        files: adopt_entries(entries).files,
        hashes: adopt_entries(entries).hashes,
        groups: adopt_groups(group_rows, group_links),
    }
}

// ---------------------------------------------------------------------------
// The store
// ---------------------------------------------------------------------------
/// The persistent hash store. All reads are answered from the
/// in-memory working copy; every mutation is mirrored to the backing
/// database before the copy is updated.
pub struct HashCache {
    files: Vec<FileRow>,
    hashes: Vec<HashRow>,
    groups: Vec<GroupRow>,
    conn: rusqlite::Connection,
}

impl View for HashCache {
    type V = StoreModel;

    closed spec fn view(&self) -> StoreModel {
        StoreModel {
            files: self.files.deep_view(),
            hashes: self.hashes.deep_view(),
            groups: self.groups.deep_view(),
        }
    }
}

impl HashCache {
    /// The store invariant, established by the constructors and kept
    /// by every operation.
    pub open spec fn wf(&self) -> bool {
        model_wf(self@)
    }

    /// The default database location, if the platform defines a cache
    /// directory. Callers that open the store there must make sure the
    /// directory exists.
    pub fn default_db_path() -> Option<String> {
        match platform_cache_dir() {
            Some(dir) => Some(
                dir.concat("/vibe-image-comparator/hashes.db"),
            ),
            None => None,
        }
    }

    /// Opens or creates the store at `database_path`, or at the
    /// process-standard cache location if none is given; creates the
    /// schema and runs the pending migrations.
    ///
    /// Fails with `StoreUnavailable` exactly when the location is
    /// inaccessible or corrupt beyond repair.
    pub fn new(database_path: Option<&str>) -> (r: Result<HashCache, CoreError>)
        ensures
            r is Ok ==> r->Ok_0.wf(),
            r is Err ==> r->Err_0 is StoreUnavailable,
    {
        let path = match database_path {
            Some(p) => String::from_str(p),
            None => {
                match Self::default_db_path() {
                    Some(p) => p,
                    None => {
                        proof {
                            reveal_strlit("hashes.db");
                        }
                        String::from_str("hashes.db")
                    },
                }
            },
        };
        Self::open_at(&path)
    }

    /// Opens a transient store that lives only as long as the process;
    /// used for tests and for callers that want no persistence.
    pub fn new_in_memory() -> (r: Result<HashCache, CoreError>)
        ensures
            r is Ok ==> r->Ok_0.wf(),
            r is Err ==> r->Err_0 is StoreUnavailable,
    {
        proof {
            reveal_strlit(":memory:");
        }
        let path = String::from_str(":memory:");
        Self::open_at(&path)
    }

    fn open_at(path: &String) -> (r: Result<HashCache, CoreError>)
        ensures
            r is Ok ==> r->Ok_0.wf(),
            r is Err ==> r->Err_0 is StoreUnavailable,
    {
        let conn = match db_open(path) {
            Ok(c) => c,
            Err(e) => {
                return Err(CoreError::StoreUnavailable { detail: db_err_detail(&e) });
            },
        };
        match Self::prepare_schema(&conn) {
            Ok(()) => {},
            Err(e) => {
                return Err(CoreError::StoreUnavailable { detail: db_err_detail(&e) });
            },
        }
        match Self::load_from(conn) {
            Ok(store) => Ok(store),
            Err(e) => Err(CoreError::StoreUnavailable { detail: db_err_detail(&e) }),
        }
    }

    /// Runs the migration stages: adopt the legacy flat layout if it
    /// is present, then rebuild the normalized tables if their hash
    /// column still uses the raw binary encoding. Both stages detect
    /// idempotently and are no-ops on a current or empty store.
    fn prepare_schema(conn: &rusqlite::Connection) -> Result<(), rusqlite::Error> {
        db_init_schema(conn)?;
        // Stage one: a legacy flat table mixing file and hash columns
        // is read whole, converted by the verified row conversion
        // (non-text hashes dropped, sizes clamped), written into the
        // normalized tables, and dropped.
        if db_has_legacy_table(conn)? {
            let legacy = db_read_legacy_rows(conn)?;
            let metas = convert_legacy_rows(&legacy);
            let mut i: usize = 0;
            while i < metas.len()
                decreases metas@.len() - i,
            {
                db_record_entry(
                    conn,
                    &metas[i].path,
                    metas[i].size,
                    &metas[i].sha256,
                    &metas[i].perceptual_hash,
                )?;
                i = i + 1;
            }
            db_drop_legacy(conn)?;
        }
        // Stage two: a normalized layout whose hash column is BLOB is
        // dropped and recreated; the cache is a pure optimisation, so
        // losing it is acceptable. The trigger is decided by the
        // verified column test.
        proof {
            reveal_strlit("perceptual_hashes");
        }
        let table = String::from_str("perceptual_hashes");
        let columns = db_table_columns(conn, &table)?;
        if blob_column_present(&columns) {
            db_drop_normalized(conn)?;
            db_init_schema(conn)?;
        }
        Ok(())
    }

    /// Reads the database whole and hands the rows to the verified
    /// builder; what the working copy then holds is pinned by
    /// [`loaded_model`] for whatever rows the database answered.
    fn load_from(conn: rusqlite::Connection) -> (r: Result<HashCache, rusqlite::Error>)
        ensures
            r is Ok ==> r->Ok_0.wf(),
    {
        let entries = match db_read_entries(&conn) {
            Ok(v) => v,
            Err(e) => {
                return Err(e);
            },
        };
        let group_rows = match db_read_group_rows(&conn) {
            Ok(v) => v,
            Err(e) => {
                return Err(e);
            },
        };
        let group_files = match db_read_group_files(&conn) {
            Ok(v) => v,
            Err(e) => {
                return Err(e);
            },
        };
        Ok(Self::build_from_rows(conn, &entries, &group_rows, &group_files))
    }

    /// Builds the well-formed working copy from the read-back rows:
    /// duplicate paths keep their first row, digests are
    /// deduplicated, and group rows need an in-range threshold and
    /// two linked members to be adopted.
    fn build_from_rows(
        conn: rusqlite::Connection,
        entries: &Vec<(String, i64, String, String)>,
        group_rows: &Vec<(i64, i64, String)>,
        group_files: &Vec<(i64, String)>,
    ) -> (r: HashCache)
        ensures
            r.wf(),
            r@ == loaded_model(entries.deep_view(), group_rows.deep_view(), group_files.deep_view()),
    {
        let mut store = HashCache {
            files: Vec::new(),
            hashes: Vec::new(),
            groups: Vec::new(),
            conn,
        };
        proof {
            assert(store@.files =~= Seq::<FileRowV>::empty());
            assert(store@.hashes =~= Seq::<HashRowV>::empty());
            assert(store@.groups =~= Seq::<GroupRowV>::empty());
            assert(store@ == adopt_entries(entries.deep_view().subrange(0, 0)));
        }
        let mut i: usize = 0;
        while i < entries.len()
            invariant
                entries@.len() == entries.deep_view().len(),
                i <= entries@.len(),
                store.wf(),
                store@ == adopt_entries(entries.deep_view().subrange(0, i as int)),
            decreases entries@.len() - i,
        {
            let ghost pre = entries.deep_view().subrange(0, i as int);
            let ghost cur = entries.deep_view().subrange(0, i as int + 1);
            let ghost rowv = entries.deep_view()[i as int];
            proof {
                assert(cur.drop_last() =~= pre);
                assert(cur.last() == rowv);
                assert(rowv == entries@[i as int].deep_view());
                assert(rowv.0 == entries@[i as int].0@);
                assert(rowv.1 == entries@[i as int].1);
                assert(rowv.2 == entries@[i as int].2@);
                assert(rowv.3 == entries@[i as int].3@);
            }
            let size: u64 = if entries[i].1 >= 0 {
                entries[i].1 as u64
            } else {
                0
            };
            proof {
                assert(size == clamped_size(rowv.1));
            }
            store.adopt_entry(&entries[i].0, size, &entries[i].2, &entries[i].3);
            i = i + 1;
        }
        proof {
            assert(entries.deep_view().subrange(0, entries.deep_view().len() as int)
                =~= entries.deep_view());
        }
        let ghost base = store@;
        let mut g: usize = 0;
        proof {
            lemma_adopt_entries_groups(entries.deep_view());
            assert(store@.groups =~= adopt_groups(
                group_rows.deep_view().subrange(0, 0),
                group_files.deep_view(),
            ));
        }
        while g < group_rows.len()
            invariant
                group_rows@.len() == group_rows.deep_view().len(),
                g <= group_rows@.len(),
                store.wf(),
                store@.files == base.files,
                store@.hashes == base.hashes,
                store@.groups == adopt_groups(
                    group_rows.deep_view().subrange(0, g as int),
                    group_files.deep_view(),
                ),
            decreases group_rows@.len() - g,
        {
            let ghost gpre = group_rows.deep_view().subrange(0, g as int);
            let ghost gcur = group_rows.deep_view().subrange(0, g as int + 1);
            let ghost growv = group_rows.deep_view()[g as int];
            proof {
                assert(gcur.drop_last() =~= gpre);
                assert(gcur.last() == growv);
                assert(growv == group_rows@[g as int].deep_view());
                assert(growv.0 == group_rows@[g as int].0);
                assert(growv.1 == group_rows@[g as int].1);
                assert(growv.2 == group_rows@[g as int].2@);
            }
            let (gid, t, fp) = (group_rows[g].0, group_rows[g].1, group_rows[g].2.clone());
            if 0 <= t && t <= u32::MAX as i64 {
                let members = Self::collect_members(gid, group_files);
                if members.len() >= 2 {
                    let ghost before = store@;
                    store.groups.push(GroupRow { threshold: t as u32, fingerprint: fp, members });
                    proof {
                        assert(store@.files == before.files && store@.hashes == before.hashes);
                        assert(store@.groups =~= before.groups.push(
                            GroupRowV {
                                threshold: growv.1 as u32,
                                fingerprint: growv.2,
                                members: members_for(growv.0, group_files.deep_view()),
                            },
                        ));
                        assert(store@.groups =~= adopt_groups(gcur, group_files.deep_view()));
                        assert forall|j: int|
                            0 <= j < store@.groups.len() implies (#[trigger] store@.groups[j]).members.len()
                            >= 2 by {
                            if j < before.groups.len() {
                                assert(store@.groups[j] == before.groups[j]);
                            }
                        }
                    }
                } else {
                    proof {
                        assert(store@.groups =~= adopt_groups(gcur, group_files.deep_view()));
                    }
                }
            } else {
                proof {
                    assert(store@.groups =~= adopt_groups(gcur, group_files.deep_view()));
                }
            }
            g = g + 1;
        }
        proof {
            assert(group_rows.deep_view().subrange(0, group_rows.deep_view().len() as int)
                =~= group_rows.deep_view());
            assert(store@ == loaded_model(
                entries.deep_view(),
                group_rows.deep_view(),
                group_files.deep_view(),
            ));
        }
        store
    }

    /// The member paths linked to one stored group id, exactly
    /// [`members_for`].
    fn collect_members(gid: i64, group_files: &Vec<(i64, String)>) -> (r: Vec<String>)
        ensures
            r.deep_view() == members_for(gid, group_files.deep_view()),
    {
        let mut members: Vec<String> = Vec::new();
        let mut k: usize = 0;
        proof {
            reveal(Seq::filter);
            assert(members.deep_view() =~= members_for(
                gid,
                group_files.deep_view().subrange(0, 0),
            ));
        }
        while k < group_files.len()
            invariant
                group_files@.len() == group_files.deep_view().len(),
                k <= group_files@.len(),
                members.deep_view() == members_for(
                    gid,
                    group_files.deep_view().subrange(0, k as int),
                ),
            decreases group_files@.len() - k,
        {
            let ghost lpre = group_files.deep_view().subrange(0, k as int);
            let ghost lcur = group_files.deep_view().subrange(0, k as int + 1);
            let ghost linkv = group_files.deep_view()[k as int];
            proof {
                reveal(Seq::filter);
                assert(lcur.drop_last() =~= lpre);
                assert(lcur.last() == linkv);
                assert(linkv == group_files@[k as int].deep_view());
                assert(linkv.0 == group_files@[k as int].0);
                assert(linkv.1 == group_files@[k as int].1@);
            }
            if group_files[k].0 == gid {
                let ghost before = members.deep_view();
                members.push(group_files[k].1.clone());
                proof {
                    assert(members.deep_view() =~= before.push(linkv.1));
                    assert(members.deep_view() =~= members_for(gid, lcur));
                }
            } else {
                proof {
                    assert(members.deep_view() =~= members_for(gid, lcur));
                }
            }
            k = k + 1;
        }
        proof {
            assert(group_files.deep_view().subrange(0, group_files.deep_view().len() as int)
                =~= group_files.deep_view());
        }
        members
    }

    /// Adopts one association read back from disk, keeping the
    /// invariant: a path already adopted keeps its first row, and the
    /// hash row is created only when its digest is new.
    fn adopt_entry(&mut self, path: &String, size: u64, sha256: &String, perceptual_hash: &String)
        requires
            old(self).wf(),
        ensures
            final(self).wf(),
            final(self).conn == old(self).conn,
            final(self)@ == adopt_step(old(self)@, path@, size, sha256@, perceptual_hash@),
    {
        if self.find_path_index(path.as_str()).is_some() {
            return ;
        }
        self.insert_association(path, size, sha256, perceptual_hash);
    }

    /// The index of the file row for `path`, if one exists.
    fn find_path_index(&self, path: &str) -> (r: Option<usize>)
        ensures
            r is Some ==> r->0 < self@.files.len() && self@.files[r->0 as int].path == path@,
            r is None ==> find_file(self@.files, path@) is None,
            r is Some ==> find_file(self@.files, path@) == Some(self@.files[r->0 as int]),
    {
        let mut i: usize = 0;
        while i < self.files.len()
            invariant
                i <= self@.files.len(),
                forall|j: int| 0 <= j < i ==> (#[trigger] self@.files[j].path) != path@,
            decreases self@.files.len() - i,
        {
            if str_eq(self.files[i].path.as_str(), path) {
                proof {
                    lemma_find_file_skip(self@.files, path@, i as int);
                    assert(self@.files.skip(i as int)[0] == self@.files[i as int]);
                }
                return Some(i);
            }
            i = i + 1;
        }
        proof {
            lemma_find_file_skip(self@.files, path@, self@.files.len() as int);
        }
        None
    }

    /// The index of the hash row for `sha256`, if one exists.
    fn find_sha_index(&self, sha256: &str) -> (r: Option<usize>)
        ensures
            r is Some ==> r->0 < self@.hashes.len() && self@.hashes[r->0 as int].sha256 == sha256@,
            r is Some ==> phash_for(self@.hashes, sha256@) == Some(
                self@.hashes[r->0 as int].perceptual_hash,
            ),
            r is None ==> !has_sha(self@.hashes, sha256@),
            r is Some ==> has_sha(self@.hashes, sha256@),
    {
        let mut i: usize = 0;
        while i < self.hashes.len()
            invariant
                i <= self@.hashes.len(),
                forall|j: int| 0 <= j < i ==> (#[trigger] self@.hashes[j].sha256) != sha256@,
            decreases self@.hashes.len() - i,
        {
            if str_eq(self.hashes[i].sha256.as_str(), sha256) {
                proof {
                    lemma_phash_for_skip(self@.hashes, sha256@, i as int);
                    assert(self@.hashes.skip(i as int)[0] == self@.hashes[i as int]);
                }
                return Some(i);
            }
            i = i + 1;
        }
        None
    }

    /// Inserts an association for a path not yet present: creates the
    /// hash row if its digest is new, and places the file row at its
    /// sorted position.
    fn insert_association(
        &mut self,
        path: &String,
        size: u64,
        sha256: &String,
        perceptual_hash: &String,
    )
        requires
            old(self).wf(),
            find_file(old(self)@.files, path@) is None,
        ensures
            final(self).wf(),
            final(self).conn == old(self).conn,
            final(self)@ == (StoreModel {
                files: insert_file(
                    old(self)@.files,
                    FileRowV { path: path@, size, sha256: sha256@ },
                ),
                hashes: if has_sha(old(self)@.hashes, sha256@) {
                    old(self)@.hashes
                } else {
                    old(self)@.hashes.push(
                        HashRowV { sha256: sha256@, perceptual_hash: perceptual_hash@ },
                    )
                },
                groups: old(self)@.groups,
            }),
    {
        proof {
            lemma_find_file_present(old(self)@.files, path@);
        }
        let ghost orig = self@;
        if self.find_sha_index(sha256.as_str()).is_none() {
            self.hashes.push(
                HashRow { sha256: sha256.clone(), perceptual_hash: perceptual_hash.clone() },
            );
            proof {
                let nh = HashRowV { sha256: sha256@, perceptual_hash: perceptual_hash@ };
                assert(self@.hashes =~= orig.hashes.push(nh));
                assert(forall|i: int|
                    0 <= i < orig.hashes.len() ==> (#[trigger] self@.hashes[i]) == orig.hashes[i]);
                assert(self@.hashes[orig.hashes.len() as int] == nh);
                assert forall|i: int, j: int|
                    0 <= i < j < self@.hashes.len() implies (#[trigger] self@.hashes[i].sha256)
                    != (#[trigger] self@.hashes[j].sha256) by {
                    if j == orig.hashes.len() {
                        assert(!has_sha(orig.hashes, sha256@));
                        assert(orig.hashes[i].sha256 != sha256@);
                    }
                }
                assert forall|i: int|
                    0 <= i < orig.files.len() implies has_sha(
                    self@.hashes,
                    (#[trigger] orig.files[i]).sha256,
                ) by {
                    let k = choose|k: int|
                        0 <= k < orig.hashes.len() && (#[trigger] orig.hashes[k].sha256)
                            == orig.files[i].sha256;
                    assert(self@.hashes[k].sha256 == orig.files[i].sha256);
                }
                assert(has_sha(self@.hashes, sha256@)) by {
                    assert(self@.hashes[orig.hashes.len() as int].sha256 == sha256@);
                }
            }
        }
        // The new hash table: digests stay distinct, and the one
        // possibly-unreferenced row is about to gain its reference.
        let ghost hashes1 = self@.hashes;
        proof {
            assert(shas_distinct(hashes1));
            assert(has_sha(hashes1, sha256@));
            assert(forall|i: int|
                0 <= i < orig.files.len() ==> has_sha(hashes1, (#[trigger] orig.files[i]).sha256));
            assert forall|i: int|
                0 <= i < hashes1.len() implies sha_referenced(
                orig.files,
                (#[trigger] hashes1[i]).sha256,
            ) || hashes1[i].sha256 == sha256@ by {
                if i < orig.hashes.len() {
                    assert(hashes1[i] == orig.hashes[i]);
                }
            }
        }
        // Find the sorted position for the new file row.
        let mut pos: usize = 0;
        while pos < self.files.len() && str_lt(
            self.files[pos].path.as_str(),
            path.as_str(),
        )
            invariant
                pos <= self@.files.len(),
                forall|j: int| 0 <= j < pos ==> lex_lt(#[trigger] self@.files[j].path, path@),
            decreases self@.files.len() - pos,
        {
            pos = pos + 1;
        }
        let ghost before = self@;
        let row = FileRow { path: path.clone(), size, sha256: sha256.clone() };
        self.files.insert(pos, row);
        proof {
            let fv = FileRowV { path: path@, size, sha256: sha256@ };
            assert(self@.files =~= before.files.insert(pos as int, fv));
            lemma_insert_keeps_model(before, self@, fv, pos as int, hashes1);
            // The position-based insertion is exactly the sorted
            // upsert of the absent path.
            lemma_insert_file_at(orig.files, fv, pos as int);
            assert(orig.files[pos as int].path != path@ || pos >= orig.files.len()) by {
                if pos < orig.files.len() && orig.files[pos as int].path == path@ {
                    assert(exists|k: int|
                        0 <= k < orig.files.len() && (#[trigger] orig.files[k].path) == path@);
                }
            }
            assert(self@.files == insert_file(orig.files, fv));
        }
    }
}

/// An ASCII-case-insensitive comparison of `a` against an upper-case
/// pattern, as spelled out below.
pub open spec fn upper_char(c: char) -> char {
    if 'a' as int <= c as int && c as int <= 'z' as int {
        ((c as int - 32) as u32) as char
    } else {
        c
    }
}

/// Whether `a`, upper-cased ASCII-wise, equals `b`.
pub open spec fn eq_upper(a: Seq<char>, b: Seq<char>) -> bool {
    a.len() == b.len() && (forall|i: int| 0 <= i < a.len() ==> upper_char(#[trigger] a[i]) == b[i])
}

/// Compares a string against a pattern ignoring ASCII case.
pub fn ascii_eq_upper(a: &str, b: &str) -> (r: bool)
    ensures
        r == eq_upper(a@, b@),
{
    let an = a.unicode_len();
    let bn = b.unicode_len();
    if an != bn {
        return false;
    }
    let mut i: usize = 0;
    while i < an
        invariant
            i <= an,
            an == a@.len(),
            bn == b@.len(),
            an == bn,
            forall|j: int| 0 <= j < i ==> upper_char(#[trigger] a@[j]) == b@[j],
        decreases an - i,
    {
        let ca = a.get_char(i);
        let cb = b.get_char(i);
        let ua: u32 = if ca as u32 >= 'a' as u32 && ca as u32 <= 'z' as u32 {
            ca as u32 - 32
        } else {
            ca as u32
        };
        if ua != cb as u32 {
            proof {
                if upper_char(a@[i as int]) == b@[i as int] {
                    assert(upper_char(ca) as u32 == cb as u32);
                }
            }
            return false;
        }
        proof {
            assert(upper_char(ca) as u32 == ua);
        }
        i = i + 1;
    }
    true
}

/// Inserting a file row at its sorted position, for a path that was
/// absent, preserves the store invariant when the row's digest is
/// present in the (possibly just extended) hash table.
proof fn lemma_insert_keeps_model(
    before: StoreModel,
    after: StoreModel,
    fv: FileRowV,
    pos: int,
    hashes1: Seq<HashRowV>,
)
    requires
        files_sorted(before.files),
        shas_distinct(hashes1),
        0 <= pos <= before.files.len(),
        forall|j: int| 0 <= j < pos ==> lex_lt(#[trigger] before.files[j].path, fv.path),
        pos < before.files.len() ==> !lex_lt(before.files[pos as int].path, fv.path),
        find_file(before.files, fv.path) is None,
        forall|i: int| 0 <= i < before.files.len() ==> has_sha(hashes1, (#[trigger] before.files[i]).sha256),
        forall|i: int|
            0 <= i < hashes1.len() ==> sha_referenced(before.files, (#[trigger] hashes1[i]).sha256)
                || hashes1[i].sha256 == fv.sha256,
        has_sha(hashes1, fv.sha256),
        forall|i: int| 0 <= i < before.groups.len() ==> (#[trigger] before.groups[i]).members.len() >= 2,
        after.files == before.files.insert(pos, fv),
        after.hashes == hashes1,
        after.groups == before.groups,
    ensures
        model_wf(after),
{
    lemma_find_file_present(before.files, fv.path);
    let files1 = after.files;
    assert(files1.len() == before.files.len() + 1);
    assert forall|i: int, j: int|
        0 <= i < j < files1.len() implies lex_lt(
        #[trigger] files1[i].path,
        #[trigger] files1[j].path,
    ) by {
        crate::order::lemma_lex_le_total(before.files[pos].path, fv.path);
        if i < pos && j == pos {
        } else if i == pos && j > pos {
            // fv.path <= files[pos].path (as pos stopped there) and paths distinct
            if pos < before.files.len() {
                assert(files1[j] == before.files[j - 1]);
                if j - 1 > pos {
                    assert(lex_lt(before.files[pos].path, before.files[j - 1].path));
                    crate::order::lemma_lex_le_transitive(
                        fv.path,
                        before.files[pos].path,
                        before.files[j - 1].path,
                    );
                    if fv.path == before.files[j - 1].path {
                        assert(exists|k: int|
                            0 <= k < before.files.len() && (#[trigger] before.files[k].path)
                                == fv.path);
                    }
                } else {
                    if fv.path == before.files[pos].path {
                        assert(exists|k: int|
                            0 <= k < before.files.len() && (#[trigger] before.files[k].path)
                                == fv.path);
                    }
                }
            }
        } else if j < pos {
        } else if i < pos && j > pos {
            assert(files1[j] == before.files[j - 1]);
        } else if i > pos && j > pos {
            assert(files1[i] == before.files[i - 1] && files1[j] == before.files[j - 1]);
        }
    }
    assert forall|i: int| 0 <= i < files1.len() implies has_sha(
        after.hashes,
        (#[trigger] files1[i]).sha256,
    ) by {
        if i < pos {
            assert(files1[i] == before.files[i]);
        } else if i == pos {
            assert(files1[i] == fv);
        } else {
            assert(files1[i] == before.files[i - 1]);
        }
    }
    assert forall|i: int| 0 <= i < after.hashes.len() implies sha_referenced(
        files1,
        (#[trigger] after.hashes[i]).sha256,
    ) by {
        if hashes1[i].sha256 == fv.sha256 {
            assert(files1[pos] == fv);
            assert(sha_referenced(files1, fv.sha256));
        } else {
            let k = choose|k: int|
                0 <= k < before.files.len() && (#[trigger] before.files[k].sha256)
                    == hashes1[i].sha256;
            if k < pos {
                assert(files1[k] == before.files[k]);
            } else {
                assert(files1[k + 1] == before.files[k]);
            }
        }
    }
}

// ---------------------------------------------------------------------------
// Lookup and record
// ---------------------------------------------------------------------------
/// What `lookup` returns: the cached hash only when a file row exists
/// for the path and both its size and its digest match exactly; any
/// mismatch means the file changed and yields nothing.
pub open spec fn lookup_spec(m: StoreModel, path: Seq<char>, size: u64, sha: Seq<char>) -> Option<
    Seq<char>,
> {
    match find_file(m.files, path) {
        Some(f) => if f.size == size && f.sha256 == sha {
            phash_for(m.hashes, sha)
        } else {
            None
        },
        None => None,
    }
}

/// The file table after upserting a row, keeping the sort by path.
pub open spec fn insert_file(files: Seq<FileRowV>, f: FileRowV) -> Seq<FileRowV>
    decreases files.len(),
{
    if files.len() == 0 {
        seq![f]
    } else if lex_lt(f.path, files[0].path) {
        seq![f] + files
    } else if f.path == files[0].path {
        seq![f] + files.drop_first()
    } else {
        seq![files[0]] + insert_file(files.drop_first(), f)
    }
}

/// What `record` does to the store: insert-or-ignore the hash row,
/// upsert the file row, and collect any hash row the upsert orphaned.
/// Cached groups stay; their fingerprint no longer matches.
pub open spec fn record_spec(
    m: StoreModel,
    path: Seq<char>,
    size: u64,
    sha: Seq<char>,
    phash: Seq<char>,
) -> StoreModel {
    let hashes1 = if has_sha(m.hashes, sha) {
        m.hashes
    } else {
        m.hashes.push(HashRowV { sha256: sha, perceptual_hash: phash })
    };
    let files1 = insert_file(m.files, FileRowV { path, size, sha256: sha });
    StoreModel {
        files: files1,
        hashes: hashes1.filter(|h: HashRowV| sha_referenced(files1, h.sha256)),
        groups: m.groups,
    }
}

/// Every element of a filtered sequence comes from the original.
proof fn lemma_filter_member<A>(s: Seq<A>, pred: spec_fn(A) -> bool, i: int)
    requires
        0 <= i < s.filter(pred).len(),
    ensures
        s.contains(s.filter(pred)[i]),
    decreases s.len(),
{
    reveal(Seq::filter);
    if s.len() > 0 {
        let pre = s.drop_last();
        if pred(s.last()) && i == s.filter(pred).len() - 1 {
            assert(s.filter(pred)[i] == s.last());
            assert(s[s.len() - 1] == s.last());
        } else {
            lemma_filter_member(pre, pred, i);
            let k = choose|k: int| 0 <= k < pre.len() && pre[k] == pre.filter(pred)[i];
            assert(s[k] == pre.filter(pred)[i]);
        }
    }
}

/// Filtering the hash table keeps its digests distinct.
proof fn lemma_filter_hashes_distinct(hashes: Seq<HashRowV>, pred: spec_fn(HashRowV) -> bool)
    requires
        shas_distinct(hashes),
    ensures
        shas_distinct(hashes.filter(pred)),
    decreases hashes.len(),
{
    reveal(Seq::filter);
    if hashes.len() > 0 {
        let pre = hashes.drop_last();
        assert(shas_distinct(pre)) by {
            assert(forall|i: int| 0 <= i < pre.len() ==> (#[trigger] pre[i]) == hashes[i]);
        }
        lemma_filter_hashes_distinct(pre, pred);
        if pred(hashes.last()) {
            let out = hashes.filter(pred);
            assert(out == pre.filter(pred).push(hashes.last()));
            assert forall|i: int, j: int|
                0 <= i < j < out.len() implies (#[trigger] out[i].sha256) != (
            #[trigger] out[j].sha256) by {
                if j == out.len() - 1 {
                    lemma_filter_member(pre, pred, i);
                    let k = choose|k: int| 0 <= k < pre.len() && pre[k] == out[i];
                    assert(hashes[k] == pre[k]);
                    assert(hashes[k].sha256 != hashes.last().sha256);
                } else {
                    assert(out[i] == pre.filter(pred)[i] && out[j] == pre.filter(pred)[j]);
                }
            }
        }
    }
}

/// Filtering the file table keeps it sorted.
proof fn lemma_filter_files_sorted(files: Seq<FileRowV>, pred: spec_fn(FileRowV) -> bool)
    requires
        files_sorted(files),
    ensures
        files_sorted(files.filter(pred)),
    decreases files.len(),
{
    reveal(Seq::filter);
    if files.len() > 0 {
        let pre = files.drop_last();
        assert(files_sorted(pre)) by {
            assert(forall|i: int| 0 <= i < pre.len() ==> (#[trigger] pre[i]) == files[i]);
        }
        lemma_filter_files_sorted(pre, pred);
        if pred(files.last()) {
            let out = files.filter(pred);
            assert(out == pre.filter(pred).push(files.last()));
            assert forall|i: int, j: int|
                0 <= i < j < out.len() implies lex_lt(
                #[trigger] out[i].path,
                #[trigger] out[j].path,
            ) by {
                if j == out.len() - 1 {
                    lemma_filter_member(pre, pred, i);
                    let k = choose|k: int| 0 <= k < pre.len() && pre[k] == out[i];
                    assert(files[k] == pre[k]);
                    assert(lex_lt(files[k].path, files.last().path));
                } else {
                    assert(out[i] == pre.filter(pred)[i] && out[j] == pre.filter(pred)[j]);
                }
            }
        }
    }
}

/// A digest that is both present and referenced survives the orphan
/// collection.
proof fn lemma_filter_keeps_sha(hashes: Seq<HashRowV>, files1: Seq<FileRowV>, sha: Seq<char>)
    requires
        has_sha(hashes, sha),
        sha_referenced(files1, sha),
    ensures
        has_sha(hashes.filter(|h: HashRowV| sha_referenced(files1, h.sha256)), sha),
{
    let pred = |h: HashRowV| sha_referenced(files1, h.sha256);
    let i = choose|i: int| 0 <= i < hashes.len() && (#[trigger] hashes[i].sha256) == sha;
    assert(pred(hashes[i]));
    Seq::lemma_filter_contains(hashes, pred, i);
    let out = hashes.filter(pred);
    assert(out.contains(hashes[i]));
    let k = choose|k: int| 0 <= k < out.len() && out[k] == hashes[i];
    assert(out[k].sha256 == sha);
}

/// Characterises the sorted upsert by the position the row lands at:
/// an existing row for the path is replaced in place, otherwise the
/// row is inserted at the position found.
proof fn lemma_insert_file_at(files: Seq<FileRowV>, f: FileRowV, pos: int)
    requires
        files_sorted(files),
        0 <= pos <= files.len(),
        forall|j: int| 0 <= j < pos ==> lex_lt(#[trigger] files[j].path, f.path),
        pos < files.len() ==> !lex_lt(files[pos].path, f.path),
    ensures
        pos < files.len() && files[pos].path == f.path ==> insert_file(files, f) == files.update(
            pos,
            f,
        ),
        !(pos < files.len() && files[pos].path == f.path) ==> insert_file(files, f)
            == files.insert(pos, f),
    decreases pos,
{
    if pos == 0 {
        if files.len() == 0 {
            assert(insert_file(files, f) =~= files.insert(0, f));
        } else if files[0].path == f.path {
            assert(insert_file(files, f) == seq![f] + files.drop_first());
            assert(insert_file(files, f) =~= files.update(0, f));
        } else {
            crate::order::lemma_lex_le_total(f.path, files[0].path);
            assert(lex_lt(f.path, files[0].path));
            assert(insert_file(files, f) == seq![f] + files);
            assert(insert_file(files, f) =~= files.insert(0, f));
        }
    } else {
        assert(lex_lt(files[0].path, f.path));
        assert(files[0].path != f.path);
        assert(!lex_lt(f.path, files[0].path)) by {
            if lex_lt(f.path, files[0].path) {
                crate::order::lemma_lex_le_antisymmetric(f.path, files[0].path);
            }
        }
        let rest = files.drop_first();
        assert(files_sorted(rest)) by {
            assert(forall|i: int| 0 <= i < rest.len() ==> (#[trigger] rest[i]) == files[i + 1]);
        }
        assert(forall|j: int| 0 <= j < pos - 1 ==> lex_lt(#[trigger] rest[j].path, f.path)) by {
            assert(forall|j: int| 0 <= j < pos - 1 ==> (#[trigger] rest[j]) == files[j + 1]);
        }
        assert(pos - 1 < rest.len() ==> !lex_lt(rest[pos - 1].path, f.path)) by {
            if pos - 1 < rest.len() {
                assert(rest[pos - 1] == files[pos]);
            }
        }
        lemma_insert_file_at(rest, f, pos - 1);
        assert(insert_file(files, f) == seq![files[0]] + insert_file(rest, f));
        if pos < files.len() && files[pos].path == f.path {
            assert(rest[pos - 1] == files[pos]);
            assert(insert_file(rest, f) == rest.update(pos - 1, f));
            assert(seq![files[0]] + rest.update(pos - 1, f) =~= files.update(pos, f));
        } else {
            if pos - 1 < rest.len() {
                assert(rest[pos - 1] == files[pos]);
            }
            assert(insert_file(rest, f) == rest.insert(pos - 1, f));
            assert(seq![files[0]] + rest.insert(pos - 1, f) =~= files.insert(pos, f));
        }
    }
}

impl HashCache {
    /// Returns the cached perceptual hash for `path` only if both the
    /// size and the content digest still match what was recorded; a
    /// mismatch means the file changed and must be rehashed. No side
    /// effects.
    pub fn get_cached_hash(&self, path: &str, size: u64, sha256: &str) -> (r: Option<String>)
        requires
            self.wf(),
        ensures
            r is Some <==> lookup_spec(self@, path@, size, sha256@) is Some,
            r is Some ==> r->0@ == lookup_spec(self@, path@, size, sha256@)->0,
    {
        match self.find_path_index(path) {
            None => None,
            Some(i) => {
                let f_size = self.files[i].size;
                let sha_matches = str_eq(self.files[i].sha256.as_str(), sha256);
                proof {
                    lemma_find_file_present(self@.files, path@);
                }
                if f_size == size && sha_matches {
                    match self.find_sha_index(sha256) {
                        Some(k) => Some(self.hashes[k].perceptual_hash.clone()),
                        None => {
                            proof {
                                lemma_phash_for_present(self@.hashes, sha256@);
                            }
                            None
                        },
                    }
                } else {
                    None
                }
            },
        }
    }
}

// ---------------------------------------------------------------------------
// Record
// ---------------------------------------------------------------------------
/// The metadata recorded for one file: its path, the size and content
/// digest it had when read, and its encoded canonical perceptual hash.
pub struct FileMetadata {
    pub path: String,
    pub size: u64,
    pub sha256: String,
    pub perceptual_hash: String,
}

impl View for FileMetadata {
    type V = FileMetadataV;

    open spec fn view(&self) -> FileMetadataV {
        FileMetadataV {
            path: self.path@,
            size: self.size,
            sha256: self.sha256@,
            perceptual_hash: self.perceptual_hash@,
        }
    }
}

impl DeepView for FileMetadata {
    type V = FileMetadataV;

    open spec fn deep_view(&self) -> FileMetadataV {
        self@
    }
}

impl Clone for FileRow {
    fn clone(&self) -> (r: Self)
        ensures
            r == *self,
    {
        FileRow { path: self.path.clone(), size: self.size, sha256: self.sha256.clone() }
    }
}

impl Clone for HashRow {
    fn clone(&self) -> (r: Self)
        ensures
            r == *self,
    {
        HashRow { sha256: self.sha256.clone(), perceptual_hash: self.perceptual_hash.clone() }
    }
}

/// The hash table without the rows no file references.
pub open spec fn prune_hashes(hashes: Seq<HashRowV>, files: Seq<FileRowV>) -> Seq<HashRowV> {
    hashes.filter(|h: HashRowV| sha_referenced(files, h.sha256))
}

/// The sorted upsert keeps the file table sorted.
proof fn lemma_upsert_sorted(files: Seq<FileRowV>, f: FileRowV, pos: int)
    requires
        files_sorted(files),
        0 <= pos <= files.len(),
        forall|j: int| 0 <= j < pos ==> lex_lt(#[trigger] files[j].path, f.path),
        pos < files.len() ==> !lex_lt(files[pos].path, f.path),
    ensures
        pos < files.len() && files[pos].path == f.path ==> files_sorted(files.update(pos, f)),
        !(pos < files.len() && files[pos].path == f.path) ==> files_sorted(files.insert(pos, f)),
{
    if pos < files.len() && files[pos].path == f.path {
        let out = files.update(pos, f);
        assert forall|i: int, j: int|
            0 <= i < j < out.len() implies lex_lt(#[trigger] out[i].path, #[trigger] out[j].path) by {
            if i == pos {
                assert(out[j] == files[j] && out[i].path == files[pos].path);
            } else if j == pos {
                assert(out[i] == files[i] && out[j].path == files[pos].path);
            } else {
                assert(out[i] == files[i] && out[j] == files[j]);
            }
        }
    } else {
        if pos < files.len() {
            crate::order::lemma_lex_le_total(f.path, files[pos].path);
            assert(lex_lt(f.path, files[pos].path));
        }
        let out = files.insert(pos, f);
        assert forall|i: int, j: int|
            0 <= i < j < out.len() implies lex_lt(#[trigger] out[i].path, #[trigger] out[j].path) by {
            if i < pos && j == pos {
                assert(out[i] == files[i] && out[j] == f);
            } else if i == pos && j > pos {
                assert(out[i] == f && out[j] == files[j - 1]);
                if j - 1 > pos {
                    crate::order::lemma_lex_le_transitive(
                        f.path,
                        files[pos].path,
                        files[j - 1].path,
                    );
                    if f.path == files[j - 1].path {
                        crate::order::lemma_lex_le_antisymmetric(f.path, files[j - 1].path);
                        assert(false);
                    }
                }
            } else if j < pos {
                assert(out[i] == files[i] && out[j] == files[j]);
            } else if i < pos && j > pos {
                assert(out[i] == files[i] && out[j] == files[j - 1]);
            } else {
                assert(out[i] == files[i - 1] && out[j] == files[j - 1]);
            }
        }
    }
}

/// The upserted file table and the extended hash table, with orphans
/// collected, form a well-formed store again.
proof fn lemma_record_wf(orig: StoreModel, files1: Seq<FileRowV>, hashes1: Seq<HashRowV>, fv: FileRowV)
    requires
        model_wf(orig),
        files_sorted(files1),
        forall|i: int|
            0 <= i < files1.len() ==> (#[trigger] files1[i]) == fv || orig.files.contains(files1[i]),
        exists|i: int| 0 <= i < files1.len() && (#[trigger] files1[i]) == fv,
        shas_distinct(hashes1),
        has_sha(hashes1, fv.sha256),
        forall|i: int|
            0 <= i < orig.hashes.len() ==> has_sha(hashes1, (#[trigger] orig.hashes[i]).sha256),
    ensures
        model_wf(
            StoreModel {
                files: files1,
                hashes: prune_hashes(hashes1, files1),
                groups: orig.groups,
            },
        ),
{
    let hashes2 = prune_hashes(hashes1, files1);
    let pred = |h: HashRowV| sha_referenced(files1, h.sha256);
    lemma_filter_hashes_distinct(hashes1, pred);
    assert forall|i: int| 0 <= i < files1.len() implies has_sha(
        hashes2,
        (#[trigger] files1[i]).sha256,
    ) by {
        assert(sha_referenced(files1, files1[i].sha256));
        if files1[i] == fv {
            lemma_filter_keeps_sha(hashes1, files1, fv.sha256);
        } else {
            let k = choose|k: int| 0 <= k < orig.files.len() && orig.files[k] == files1[i];
            assert(has_sha(orig.hashes, orig.files[k].sha256));
            let h = choose|h: int|
                0 <= h < orig.hashes.len() && (#[trigger] orig.hashes[h].sha256)
                    == orig.files[k].sha256;
            assert(has_sha(hashes1, orig.hashes[h].sha256));
            lemma_filter_keeps_sha(hashes1, files1, files1[i].sha256);
        }
    }
    assert forall|i: int| 0 <= i < hashes2.len() implies sha_referenced(
        files1,
        (#[trigger] hashes2[i]).sha256,
    ) by {
        Seq::lemma_filter_pred(hashes1, pred, i);
    }
}

impl HashCache {
    /// Whether some file row of `files` references `sha`.
    fn files_reference_sha(files: &Vec<FileRow>, sha: &str) -> (r: bool)
        ensures
            r == sha_referenced(files.deep_view(), sha@),
    {
        let mut i: usize = 0;
        while i < files.len()
            invariant
                i <= files@.len(),
                forall|j: int| 0 <= j < i ==> (#[trigger] files.deep_view()[j].sha256) != sha@,
            decreases files@.len() - i,
        {
            if str_eq(files[i].sha256.as_str(), sha) {
                assert(files.deep_view()[i as int].sha256 == sha@);
                return true;
            }
            i = i + 1;
        }
        false
    }

    /// Drops every hash row that no file row references.
    fn prune_orphan_hashes(&mut self)
        ensures
            final(self)@.files == old(self)@.files,
            final(self)@.groups == old(self)@.groups,
            final(self).conn == old(self).conn,
            final(self)@.hashes == prune_hashes(old(self)@.hashes, old(self)@.files),
    {
        let mut kept: Vec<HashRow> = Vec::new();
        let mut i: usize = 0;
        proof {
            reveal(Seq::filter);
            assert(kept.deep_view() =~= prune_hashes(
                self@.hashes.subrange(0, 0),
                self@.files,
            ));
        }
        while i < self.hashes.len()
            invariant
                i <= self@.hashes.len(),
                kept.deep_view() == prune_hashes(
                    self@.hashes.subrange(0, i as int),
                    self@.files,
                ),
            decreases self@.hashes.len() - i,
        {
            let ghost pre = self@.hashes.subrange(0, i as int);
            let ghost cur = self@.hashes.subrange(0, i as int + 1);
            proof {
                reveal(Seq::filter);
                assert(cur.drop_last() =~= pre);
                assert(cur.last() == self@.hashes[i as int]);
            }
            if Self::files_reference_sha(&self.files, self.hashes[i].sha256.as_str()) {
                let ghost old_kept = kept.deep_view();
                kept.push(self.hashes[i].clone());
                proof {
                    assert(kept.deep_view() =~= old_kept.push(self@.hashes[i as int]));
                }
            }
            i = i + 1;
        }
        proof {
            assert(self@.hashes.subrange(0, self@.hashes.len() as int) =~= self@.hashes);
        }
        self.hashes = kept;
    }

    /// Applies the record transition to the working copy.
    fn apply_record(&mut self, path: &String, size: u64, sha256: &String, perceptual_hash: &String)
        requires
            old(self).wf(),
        ensures
            final(self).wf(),
            final(self)@ == record_spec(old(self)@, path@, size, sha256@, perceptual_hash@),
            final(self).conn == old(self).conn,
    {
        let ghost orig = self@;
        let ghost fv = FileRowV { path: path@, size, sha256: sha256@ };
        if self.find_sha_index(sha256.as_str()).is_none() {
            self.hashes.push(
                HashRow { sha256: sha256.clone(), perceptual_hash: perceptual_hash.clone() },
            );
            proof {
                let nh = HashRowV { sha256: sha256@, perceptual_hash: perceptual_hash@ };
                assert(self@.hashes =~= orig.hashes.push(nh));
                assert(forall|i: int|
                    0 <= i < orig.hashes.len() ==> (#[trigger] self@.hashes[i]) == orig.hashes[i]);
                assert(self@.hashes[orig.hashes.len() as int] == nh);
                assert forall|i: int, j: int|
                    0 <= i < j < self@.hashes.len() implies (#[trigger] self@.hashes[i].sha256)
                    != (#[trigger] self@.hashes[j].sha256) by {
                    if j == orig.hashes.len() {
                        assert(!has_sha(orig.hashes, sha256@));
                        assert(orig.hashes[i].sha256 != sha256@);
                    }
                }
                assert(has_sha(self@.hashes, sha256@)) by {
                    assert(self@.hashes[orig.hashes.len() as int].sha256 == sha256@);
                }
            }
        }
        let ghost hashes1 = self@.hashes;
        proof {
            assert(shas_distinct(hashes1));
            assert(has_sha(hashes1, sha256@));
            assert forall|i: int|
                0 <= i < orig.hashes.len() implies has_sha(
                hashes1,
                (#[trigger] orig.hashes[i]).sha256,
            ) by {
                assert(hashes1[i] == orig.hashes[i]);
            }
        }
        // Find the sorted position for the file row.
        let mut pos: usize = 0;
        while pos < self.files.len() && str_lt(self.files[pos].path.as_str(), path.as_str())
            invariant
                pos <= self@.files.len(),
                forall|j: int| 0 <= j < pos ==> lex_lt(#[trigger] self@.files[j].path, path@),
            decreases self@.files.len() - pos,
        {
            pos = pos + 1;
        }
        let ghost before_files = self@.files;
        let row = FileRow { path: path.clone(), size, sha256: sha256.clone() };
        let replace = pos < self.files.len() && str_eq(self.files[pos].path.as_str(), path.as_str());
        proof {
            lemma_insert_file_at(before_files, fv, pos as int);
            lemma_upsert_sorted(before_files, fv, pos as int);
        }
        if replace {
            self.files.set(pos, row);
            proof {
                assert(self@.files =~= before_files.update(pos as int, fv));
            }
        } else {
            self.files.insert(pos, row);
            proof {
                assert(self@.files =~= before_files.insert(pos as int, fv));
            }
        }
        let ghost files1 = self@.files;
        proof {
            assert(files1 == insert_file(orig.files, fv));
            assert(files_sorted(files1));
            assert forall|i: int|
                0 <= i < files1.len() implies (#[trigger] files1[i]) == fv || orig.files.contains(
                files1[i],
            ) by {
                if replace {
                    if i != pos {
                        assert(files1[i] == orig.files[i]);
                    }
                } else {
                    if i < pos {
                        assert(files1[i] == orig.files[i]);
                    } else if i > pos {
                        assert(files1[i] == orig.files[i - 1]);
                    }
                }
            }
            assert(files1[pos as int] == fv);
        }
        self.prune_orphan_hashes();
        proof {
            lemma_record_wf(orig, files1, hashes1, fv);
            assert(self@ == record_spec(orig, path@, size, sha256@, perceptual_hash@));
        }
    }

    /// Upserts the association for `metadata.path` and lazily creates
    /// the hash row for its digest; idempotent, since recording the
    /// same data twice rewrites it in place. A hash row orphaned by
    /// the upsert is collected at once.
    pub fn store_hash(&mut self, metadata: &FileMetadata) -> (r: Result<(), CoreError>)
        requires
            old(self).wf(),
        ensures
            final(self).wf(),
            r is Ok ==> final(self)@ == record_spec(
                old(self)@,
                metadata.path@,
                metadata.size,
                metadata.sha256@,
                metadata.perceptual_hash@,
            ),
            r is Err ==> final(self)@ == old(self)@ && r->Err_0 is Store,
    {
        match db_record_entry(
            &self.conn,
            &metadata.path,
            metadata.size,
            &metadata.sha256,
            &metadata.perceptual_hash,
        ) {
            Ok(()) => {},
            Err(e) => {
                return Err(store_err(&e));
            },
        }
        match db_delete_orphan_hashes(&self.conn) {
            Ok(_) => {},
            Err(e) => {
                return Err(store_err(&e));
            },
        }
        self.apply_record(&metadata.path, metadata.size, &metadata.sha256, &metadata.perceptual_hash);
        Ok(())
    }
}

// ---------------------------------------------------------------------------
// Forget, sweeps, and the full listing
// ---------------------------------------------------------------------------
/// The file table without the row for `path`.
pub open spec fn files_without_path(files: Seq<FileRowV>, path: Seq<char>) -> Seq<FileRowV> {
    files.filter(|f: FileRowV| f.path != path)
}

/// What `forget` does to the store: the file row goes, any hash row
/// that orphans goes with it, and all cached groups are cleared. On a
/// path that was never recorded the tables are unchanged and only the
/// group cache is cleared.
pub open spec fn forget_spec(m: StoreModel, path: Seq<char>) -> StoreModel {
    let files1 = files_without_path(m.files, path);
    StoreModel { files: files1, hashes: prune_hashes(m.hashes, files1), groups: Seq::empty() }
}

/// Whether `p` is one of `paths`.
pub open spec fn in_paths(paths: Seq<Seq<char>>, p: Seq<char>) -> bool {
    exists|i: int| 0 <= i < paths.len() && (#[trigger] paths[i]) == p
}

/// The file table without the rows whose paths are reported missing.
pub open spec fn files_without_missing(
    files: Seq<FileRowV>,
    missing: Seq<Seq<char>>,
) -> Seq<FileRowV> {
    files.filter(|f: FileRowV| !in_paths(missing, f.path))
}

/// What the plain sweep does: drop the rows of missing files and the
/// hash rows that orphans; cached groups stay (their fingerprint test
/// takes care of staleness).
pub open spec fn sweep_spec(m: StoreModel, missing: Seq<Seq<char>>) -> StoreModel {
    let files1 = files_without_missing(m.files, missing);
    StoreModel { files: files1, hashes: prune_hashes(m.hashes, files1), groups: m.groups }
}

/// What the transactional sweep does: as the plain sweep, but cached
/// groups are cleared too; when nothing is missing the store is left
/// untouched.
pub open spec fn sweep_clear_spec(m: StoreModel, missing: Seq<Seq<char>>) -> StoreModel {
    let files1 = files_without_missing(m.files, missing);
    if files1.len() == m.files.len() {
        m
    } else {
        StoreModel { files: files1, hashes: prune_hashes(m.hashes, files1), groups: Seq::empty() }
    }
}

/// A cleanup that only removes file rows, collects the orphans and
/// rewrites the groups to a well-formed set keeps the store invariant.
proof fn lemma_cleanup_wf(orig: StoreModel, files1: Seq<FileRowV>, groups1: Seq<GroupRowV>)
    requires
        model_wf(orig),
        files_sorted(files1),
        forall|i: int| 0 <= i < files1.len() ==> orig.files.contains(#[trigger] files1[i]),
        forall|i: int| 0 <= i < groups1.len() ==> (#[trigger] groups1[i]).members.len() >= 2,
    ensures
        model_wf(
            StoreModel { files: files1, hashes: prune_hashes(orig.hashes, files1), groups: groups1 },
        ),
{
    let hashes2 = prune_hashes(orig.hashes, files1);
    let pred = |h: HashRowV| sha_referenced(files1, h.sha256);
    lemma_filter_hashes_distinct(orig.hashes, pred);
    assert forall|i: int| 0 <= i < files1.len() implies has_sha(
        hashes2,
        (#[trigger] files1[i]).sha256,
    ) by {
        assert(sha_referenced(files1, files1[i].sha256));
        let k = choose|k: int| 0 <= k < orig.files.len() && orig.files[k] == files1[i];
        assert(has_sha(orig.hashes, orig.files[k].sha256));
        lemma_filter_keeps_sha(orig.hashes, files1, files1[i].sha256);
    }
    assert forall|i: int| 0 <= i < hashes2.len() implies sha_referenced(
        files1,
        (#[trigger] hashes2[i]).sha256,
    ) by {
        Seq::lemma_filter_pred(orig.hashes, pred, i);
    }
}

impl HashCache {
    /// Removes the file rows whose path equals `path`.
    fn remove_path_rows(&mut self, path: &str)
        ensures
            final(self)@.files == files_without_path(old(self)@.files, path@),
            final(self)@.hashes == old(self)@.hashes,
            final(self)@.groups == old(self)@.groups,
            final(self).conn == old(self).conn,
    {
        let mut kept: Vec<FileRow> = Vec::new();
        let mut i: usize = 0;
        proof {
            reveal(Seq::filter);
            assert(kept.deep_view() =~= files_without_path(self@.files.subrange(0, 0), path@));
        }
        while i < self.files.len()
            invariant
                i <= self@.files.len(),
                kept.deep_view() == files_without_path(self@.files.subrange(0, i as int), path@),
            decreases self@.files.len() - i,
        {
            let ghost pre = self@.files.subrange(0, i as int);
            let ghost cur = self@.files.subrange(0, i as int + 1);
            proof {
                reveal(Seq::filter);
                assert(cur.drop_last() =~= pre);
                assert(cur.last() == self@.files[i as int]);
            }
            if !str_eq(self.files[i].path.as_str(), path) {
                let ghost old_kept = kept.deep_view();
                kept.push(self.files[i].clone());
                proof {
                    assert(kept.deep_view() =~= old_kept.push(self@.files[i as int]));
                }
            }
            i = i + 1;
        }
        proof {
            assert(self@.files.subrange(0, self@.files.len() as int) =~= self@.files);
        }
        self.files = kept;
    }

    /// Removes the file rows whose path is listed in `missing`.
    fn remove_missing_rows(&mut self, missing: &Vec<String>)
        ensures
            final(self)@.files == files_without_missing(old(self)@.files, missing.deep_view()),
            final(self)@.hashes == old(self)@.hashes,
            final(self)@.groups == old(self)@.groups,
            final(self).conn == old(self).conn,
    {
        let mut kept: Vec<FileRow> = Vec::new();
        let mut i: usize = 0;
        proof {
            reveal(Seq::filter);
            assert(kept.deep_view() =~= files_without_missing(
                self@.files.subrange(0, 0),
                missing.deep_view(),
            ));
        }
        while i < self.files.len()
            invariant
                i <= self@.files.len(),
                kept.deep_view() == files_without_missing(
                    self@.files.subrange(0, i as int),
                    missing.deep_view(),
                ),
            decreases self@.files.len() - i,
        {
            let ghost pre = self@.files.subrange(0, i as int);
            let ghost cur = self@.files.subrange(0, i as int + 1);
            proof {
                reveal(Seq::filter);
                assert(cur.drop_last() =~= pre);
                assert(cur.last() == self@.files[i as int]);
            }
            if !Self::path_in_list(missing, self.files[i].path.as_str()) {
                let ghost old_kept = kept.deep_view();
                kept.push(self.files[i].clone());
                proof {
                    assert(kept.deep_view() =~= old_kept.push(self@.files[i as int]));
                }
            }
            i = i + 1;
        }
        proof {
            assert(self@.files.subrange(0, self@.files.len() as int) =~= self@.files);
        }
        self.files = kept;
    }

    /// Whether `p` is one of the paths in `paths`.
    fn path_in_list(paths: &Vec<String>, p: &str) -> (r: bool)
        ensures
            r == in_paths(paths.deep_view(), p@),
    {
        let mut i: usize = 0;
        while i < paths.len()
            invariant
                i <= paths@.len(),
                forall|j: int| 0 <= j < i ==> (#[trigger] paths.deep_view()[j]) != p@,
            decreases paths@.len() - i,
        {
            if str_eq(paths[i].as_str(), p) {
                assert(paths.deep_view()[i as int] == p@);
                return true;
            }
            i = i + 1;
        }
        false
    }

    /// The parts of `files1` kept by a filter come from the old table.
    proof fn lemma_filtered_files_from(orig: Seq<FileRowV>, files1: Seq<FileRowV>, pred: spec_fn(FileRowV) -> bool)
        requires
            files1 == orig.filter(pred),
        ensures
            forall|i: int| 0 <= i < files1.len() ==> orig.contains(#[trigger] files1[i]),
    {
        assert forall|i: int| 0 <= i < files1.len() implies orig.contains(#[trigger] files1[i]) by {
            lemma_filter_member(orig, pred, i);
        }
    }

    /// Deletes the file row for `path` (used when a file turned out
    /// unreadable or broken), collects any orphaned hash row, and
    /// clears all cached duplicate groups. Never fails on account of
    /// `path` being unknown: the tables are then simply unchanged.
    pub fn remove_file_entry(&mut self, path: &str) -> (r: Result<(), CoreError>)
        requires
            old(self).wf(),
        ensures
            final(self).wf(),
            r is Ok ==> final(self)@ == forget_spec(old(self)@, path@),
            r is Err ==> final(self)@ == old(self)@ && r->Err_0 is Store,
    {
        let path_string = String::from_str(path);
        match db_delete_file(&self.conn, &path_string) {
            Ok(()) => {},
            Err(e) => {
                return Err(store_err(&e));
            },
        }
        match db_delete_orphan_hashes(&self.conn) {
            Ok(_) => {},
            Err(e) => {
                return Err(store_err(&e));
            },
        }
        match db_clear_groups(&self.conn) {
            Ok(_) => {},
            Err(e) => {
                return Err(store_err(&e));
            },
        }
        let ghost orig = self@;
        self.remove_path_rows(path);
        let ghost files1 = self@.files;
        self.prune_orphan_hashes();
        self.groups = Vec::new();
        proof {
            let pred = |f: FileRowV| f.path != path@;
            Self::lemma_filtered_files_from(orig.files, files1, pred);
            lemma_filter_files_sorted(orig.files, pred);
            assert(self@.groups =~= Seq::<GroupRowV>::empty());
            lemma_cleanup_wf(orig, files1, self@.groups);
            assert(self@ == forget_spec(orig, path@));
        }
        Ok(())
    }

    /// Deletes the file rows for every path in `missing` (as reported
    /// by the caller's existence check) and collects the orphaned hash
    /// rows; returns how many file rows were removed. Cached groups
    /// stay: a later load finds their fingerprint stale by itself.
    pub fn cleanup_missing_files(&mut self, missing: &Vec<String>) -> (r: Result<
        usize,
        CoreError,
    >)
        requires
            old(self).wf(),
        ensures
            final(self).wf(),
            r is Ok ==> final(self)@ == sweep_spec(old(self)@, missing.deep_view()),
            r is Ok ==> r->Ok_0 == old(self)@.files.len() - final(self)@.files.len(),
            r is Err ==> final(self)@ == old(self)@ && r->Err_0 is Store,
    {
        let mut i: usize = 0;
        while i < missing.len()
            invariant
                old(self).wf(),
                self == old(self),
            decreases missing@.len() - i,
        {
            match db_delete_file(&self.conn, &missing[i]) {
                Ok(()) => {},
                Err(e) => {
                    return Err(store_err(&e));
                },
            }
            i = i + 1;
        }
        match db_delete_orphan_hashes(&self.conn) {
            Ok(_) => {},
            Err(e) => {
                return Err(store_err(&e));
            },
        }
        let ghost orig = self@;
        let before_len = self.files.len();
        self.remove_missing_rows(missing);
        let ghost files1 = self@.files;
        let after_len = self.files.len();
        self.prune_orphan_hashes();
        proof {
            let pred = |f: FileRowV| !in_paths(missing.deep_view(), f.path);
            Self::lemma_filtered_files_from(orig.files, files1, pred);
            lemma_filter_files_sorted(orig.files, pred);
            lemma_cleanup_wf(orig, files1, self@.groups);
            assert(self@ == sweep_spec(orig, missing.deep_view()));
            Seq::lemma_filter_len(orig.files, pred);
        }
        Ok(before_len - after_len)
    }

    /// The transactional sweep: as `cleanup_missing_files`, but all
    /// deletions commit atomically, the cached duplicate groups are
    /// cleared as well, and both the removed-file and the
    /// removed-hash counts are returned. When nothing is missing the
    /// store is left untouched and (0, 0) is returned.
    pub fn cleanup_missing_files_and_hashes(&mut self, missing: &Vec<String>) -> (r: Result<
        (usize, usize),
        CoreError,
    >)
        requires
            old(self).wf(),
        ensures
            final(self).wf(),
            r is Ok ==> final(self)@ == sweep_clear_spec(old(self)@, missing.deep_view()),
            r is Ok ==> r->Ok_0.0 == old(self)@.files.len() - final(self)@.files.len(),
            r is Ok ==> r->Ok_0.1 == old(self)@.hashes.len() - final(self)@.hashes.len(),
            r is Err ==> final(self)@ == old(self)@ && r->Err_0 is Store,
            (forall|j: int|
                0 <= j < old(self)@.files.len() ==> !in_paths(
                    missing.deep_view(),
                    (#[trigger] old(self)@.files[j]).path,
                )) ==> r is Ok,
    {
        let ghost orig = self@;
        // Work out what would be removed before touching anything.
        let mut any_missing: bool = false;
        let mut i: usize = 0;
        while i < self.files.len()
            invariant
                i <= self@.files.len(),
                self == old(self),
                any_missing == exists|j: int|
                    0 <= j < i && in_paths(missing.deep_view(), (#[trigger] self@.files[j]).path),
            decreases self@.files.len() - i,
        {
            if Self::path_in_list(missing, self.files[i].path.as_str()) {
                proof {
                    assert(in_paths(missing.deep_view(), self@.files[i as int].path));
                }
                any_missing = true;
            }
            i = i + 1;
        }
        if !any_missing {
            proof {
                lemma_nothing_missing(orig.files, missing.deep_view());
            }
            return Ok((0, 0));
        }
        match db_begin(&self.conn) {
            Ok(()) => {},
            Err(e) => {
                return Err(store_err(&e));
            },
        }
        match self.sweep_transaction_body(missing) {
            Ok(()) => {},
            Err(e) => {
                let _ = db_rollback(&self.conn);
                return Err(store_err(&e));
            },
        }
        match db_commit(&self.conn) {
            Ok(()) => {},
            Err(e) => {
                let _ = db_rollback(&self.conn);
                return Err(store_err(&e));
            },
        }
        let before_files = self.files.len();
        let before_hashes = self.hashes.len();
        self.remove_missing_rows(missing);
        let ghost files1 = self@.files;
        let after_files = self.files.len();
        self.prune_orphan_hashes();
        let after_hashes = self.hashes.len();
        self.groups = Vec::new();
        proof {
            let pred = |f: FileRowV| !in_paths(missing.deep_view(), f.path);
            Self::lemma_filtered_files_from(orig.files, files1, pred);
            lemma_filter_files_sorted(orig.files, pred);
            assert(self@.groups =~= Seq::<GroupRowV>::empty());
            lemma_cleanup_wf(orig, files1, self@.groups);
            Seq::lemma_filter_len(orig.files, pred);
            assert(files1.len() < orig.files.len()) by {
                lemma_some_missing(orig.files, missing.deep_view());
            }
            assert(self@ == sweep_clear_spec(orig, missing.deep_view()));
            Seq::lemma_filter_len(orig.hashes, |h: HashRowV| sha_referenced(files1, h.sha256));
        }
        Ok((before_files - after_files, before_hashes - after_hashes))
    }

    /// The deletions of the transactional sweep, between begin and
    /// commit; the working copy is untouched.
    fn sweep_transaction_body(&self, missing: &Vec<String>) -> Result<(), rusqlite::Error> {
        let mut i: usize = 0;
        while i < missing.len()
            decreases missing@.len() - i,
        {
            db_delete_file(&self.conn, &missing[i])?;
            i = i + 1;
        }
        db_delete_orphan_hashes(&self.conn)?;
        db_clear_groups(&self.conn)?;
        Ok(())
    }

    /// Every currently known (path, encoded hash) association, in
    /// path order; lets duplicate groups be rebuilt purely from cache.
    pub fn get_all_cached_hashes(&self) -> (r: Vec<(String, String)>)
        requires
            self.wf(),
        ensures
            r@.len() == self@.files.len(),
            forall|i: int|
                0 <= i < r@.len() ==> (#[trigger] r@[i].0@) == self@.files[i].path && r@[i].1@
                    == phash_for(self@.hashes, self@.files[i].sha256)->0,
    {
        let mut out: Vec<(String, String)> = Vec::new();
        let mut i: usize = 0;
        while i < self.files.len()
            invariant
                self.wf(),
                i <= self@.files.len(),
                out@.len() == i,
                forall|j: int|
                    0 <= j < i ==> (#[trigger] out@[j].0@) == self@.files[j].path && out@[j].1@
                        == phash_for(self@.hashes, self@.files[j].sha256)->0,
            decreases self@.files.len() - i,
    {
            match self.find_sha_index(self.files[i].sha256.as_str()) {
                Some(k) => {
                    let ghost expected = phash_for(self@.hashes, self@.files[i as int].sha256);
                    out.push((self.files[i].path.clone(), self.hashes[k].perceptual_hash.clone()));
                    proof {
                        assert(out@[i as int].0@ == self@.files[i as int].path);
                        assert(out@[i as int].1@ == expected->0);
                        assert(forall|j: int| 0 <= j < i ==> (#[trigger] out@[j]) == out@.drop_last()[j]);
                    }
                },
                None => {
                    proof {
                        assert(has_sha(self@.hashes, self@.files[i as int].sha256));
                    }
                    vstd::pervasive::unreached::<()>();
                },
            }
            i = i + 1;
        }
        out
    }
}

/// When no stored path is reported missing, the filter keeps every
/// row.
proof fn lemma_nothing_missing(files: Seq<FileRowV>, missing: Seq<Seq<char>>)
    requires
        forall|j: int| 0 <= j < files.len() ==> !in_paths(missing, (#[trigger] files[j]).path),
    ensures
        files_without_missing(files, missing) == files,
    decreases files.len(),
{
    reveal(Seq::filter);
    if files.len() > 0 {
        let pre = files.drop_last();
        lemma_nothing_missing(pre, missing);
        assert(files_without_missing(files, missing) =~= files);
    } else {
        assert(files_without_missing(files, missing) =~= files);
    }
}

/// When some stored path is reported missing, the filter drops at
/// least one row.
proof fn lemma_some_missing(files: Seq<FileRowV>, missing: Seq<Seq<char>>)
    requires
        exists|j: int| 0 <= j < files.len() && in_paths(missing, (#[trigger] files[j]).path),
    ensures
        files_without_missing(files, missing).len() < files.len(),
    decreases files.len(),
{
    reveal(Seq::filter);
    let j = choose|j: int| 0 <= j < files.len() && in_paths(missing, (#[trigger] files[j]).path);
    let pre = files.drop_last();
    Seq::lemma_filter_len(pre, |f: FileRowV| !in_paths(missing, f.path));
    if j == files.len() - 1 {
        assert(files_without_missing(files, missing) == files_without_missing(pre, missing));
    } else {
        assert(pre[j] == files[j]);
        lemma_some_missing(pre, missing);
    }
}

// ---------------------------------------------------------------------------
// Fingerprint
// ---------------------------------------------------------------------------
/// The SHA-256 digest of the UTF-8 encoding of a character sequence.
/// The result depends on the characters alone.
pub uninterp spec fn sha256_of(text: Seq<char>) -> Seq<u8>;

/// Relies on sha2's `Sha256`: digests the UTF-8 bytes of `s`. SHA-256
/// always produces 32 bytes, and the same text always digests to the
/// same bytes.
#[verifier::external_body]
fn sha256_digest(s: &str) -> (r: Vec<u8>)
    ensures
        r@ == sha256_of(s@),
        r@.len() == 32,
{
    let mut h = <sha2::Sha256 as sha2::Digest>::new();
    sha2::Digest::update(&mut h, s.as_bytes());
    let out = sha2::Digest::finalize(h);
    out.to_vec()
}

/// Relies on std's `String::push`: appends one character.
#[verifier::external_body]
fn push_char(s: &mut String, c: char)
    ensures
        final(s)@ == old(s)@.push(c),
{
    s.push(c);
}

/// The lower-case hexadecimal character for a value below 16.
pub open spec fn hex_digit_char(v: u8) -> char
    recommends
        v < 16,
{
    if v < 10 {
        ((v + 48) as u8) as char
    } else {
        ((v + 87) as u8) as char
    }
}

/// The lower-case hexadecimal spelling of a byte sequence: two digits
/// for each byte, high nibble first.
pub open spec fn hex_of_bytes(bytes: Seq<u8>) -> Seq<char> {
    Seq::new(
        bytes.len() * 2,
        |i: int|
            if i % 2 == 0 {
                hex_digit_char(bytes[i / 2] / 16)
            } else {
                hex_digit_char(bytes[i / 2] % 16)
            },
    )
}

/// The lower-case hexadecimal character for a nibble.
fn hex_char_of(v: u8) -> (c: char)
    requires
        v < 16,
    ensures
        c == hex_digit_char(v),
{
    if v < 10 {
        (v + 48) as char
    } else {
        (v + 87) as char
    }
}

/// Spells a byte sequence in lower-case hexadecimal.
fn bytes_to_hex(bytes: &Vec<u8>) -> (r: String)
    ensures
        r@ == hex_of_bytes(bytes@),
{
    let mut out = String::new();
    let mut i: usize = 0;
    proof {
        assert(out@ =~= hex_of_bytes(bytes@.subrange(0, 0)));
    }
    while i < bytes.len()
        invariant
            i <= bytes@.len(),
            out@ == hex_of_bytes(bytes@.subrange(0, i as int)),
        decreases bytes@.len() - i,
    {
        let ghost before = out@;
        let b = bytes[i];
        push_char(&mut out, hex_char_of(b / 16));
        push_char(&mut out, hex_char_of(b % 16));
        proof {
            assert(out@ == before.push(hex_digit_char(b / 16)).push(hex_digit_char(b % 16)));
            assert(out@ =~= hex_of_bytes(bytes@.subrange(0, i as int + 1)));
        }
        i = i + 1;
    }
    proof {
        assert(bytes@.subrange(0, bytes@.len() as int) =~= bytes@);
    }
    out
}

/// The text whose digest fingerprints the store: for every file row
/// in path order, the path followed by its perceptual hash. The file
/// table is always sorted by path, so equal contents give equal
/// fingerprints regardless of insertion order.
pub open spec fn fingerprint_input_rec(files: Seq<FileRowV>, hashes: Seq<HashRowV>) -> Seq<char>
    decreases files.len(),
{
    if files.len() == 0 {
        Seq::empty()
    } else {
        fingerprint_input_rec(files.drop_last(), hashes) + files.last().path + phash_for(
            hashes,
            files.last().sha256,
        )->0
    }
}

/// The fingerprint text of a store.
pub open spec fn fingerprint_input(m: StoreModel) -> Seq<char> {
    fingerprint_input_rec(m.files, m.hashes)
}

/// The fingerprint of a store: the hexadecimal SHA-256 digest of its
/// fingerprint text.
pub open spec fn fingerprint_spec(m: StoreModel) -> Seq<char> {
    hex_of_bytes(sha256_of(fingerprint_input(m)))
}

// ---------------------------------------------------------------------------
// Cached duplicate groups
// ---------------------------------------------------------------------------
/// The group rows whose threshold differs from `t`.
pub open spec fn groups_for_other_thresholds(groups: Seq<GroupRowV>, t: u32) -> Seq<GroupRowV> {
    groups.filter(|r: GroupRowV| r.threshold != t)
}

/// The groups that carry duplicate information: two members or more.
pub open spec fn big_groups(groups: Seq<Seq<Seq<char>>>) -> Seq<Seq<Seq<char>>> {
    groups.filter(|g: Seq<Seq<char>>| g.len() >= 2)
}

/// Group rows made of `groups` for threshold `t` under fingerprint
/// `fp`.
pub open spec fn group_rows_of(groups: Seq<Seq<Seq<char>>>, t: u32, fp: Seq<char>) -> Seq<
    GroupRowV,
> {
    groups.map_values(|g: Seq<Seq<char>>| GroupRowV { threshold: t, fingerprint: fp, members: g })
}

/// What `storeGroups` does: the rows of threshold `t` are replaced
/// by the given groups of two or more members, each stamped with the
/// current fingerprint. An empty list, or one of singletons only,
/// therefore deletes the threshold's rows and caches nothing.
pub open spec fn store_groups_spec(m: StoreModel, t: u32, groups: Seq<Seq<Seq<char>>>) -> StoreModel {
    StoreModel {
        files: m.files,
        hashes: m.hashes,
        groups: groups_for_other_thresholds(m.groups, t) + group_rows_of(
            big_groups(groups),
            t,
            fingerprint_spec(m),
        ),
    }
}

/// The group rows of threshold `t` stamped with fingerprint `fp`.
pub open spec fn groups_matching(groups: Seq<GroupRowV>, t: u32, fp: Seq<char>) -> Seq<GroupRowV> {
    groups.filter(|r: GroupRowV| r.threshold == t && r.fingerprint == fp)
}

/// The member lists of a sequence of group rows.
pub open spec fn members_of(groups: Seq<GroupRowV>) -> Seq<Seq<Seq<char>>> {
    groups.map_values(|r: GroupRowV| r.members)
}

/// What `loadGroups` returns: the cached groups of threshold `t`, but
/// only those stamped with the store's current fingerprint; none
/// match exactly when nothing valid is cached, and the caller must
/// then recompute.
pub open spec fn load_groups_spec(m: StoreModel, t: u32) -> Option<Seq<Seq<Seq<char>>>> {
    let matching = groups_matching(m.groups, t, fingerprint_spec(m));
    if matching.len() == 0 {
        None
    } else {
        Some(members_of(matching))
    }
}

impl HashCache {
    /// The store's current fingerprint, as a hexadecimal string.
    fn fingerprint_string(&self) -> (r: String)
        requires
            self.wf(),
        ensures
            r@ == fingerprint_spec(self@),
    {
        let mut input = String::new();
        let mut i: usize = 0;
        proof {
            assert(input@ =~= fingerprint_input_rec(self@.files.subrange(0, 0), self@.hashes));
        }
        while i < self.files.len()
            invariant
                self.wf(),
                i <= self@.files.len(),
                input@ == fingerprint_input_rec(self@.files.subrange(0, i as int), self@.hashes),
            decreases self@.files.len() - i,
        {
            let ghost pre = self@.files.subrange(0, i as int);
            let ghost cur = self@.files.subrange(0, i as int + 1);
            proof {
                assert(cur.drop_last() =~= pre);
                assert(cur.last() == self@.files[i as int]);
            }
            input.append(self.files[i].path.as_str());
            match self.find_sha_index(self.files[i].sha256.as_str()) {
                Some(k) => {
                    input.append(self.hashes[k].perceptual_hash.as_str());
                },
                None => {
                    proof {
                        assert(has_sha(self@.hashes, self@.files[i as int].sha256));
                    }
                    vstd::pervasive::unreached::<()>();
                },
            }
            i = i + 1;
        }
        proof {
            assert(self@.files.subrange(0, self@.files.len() as int) =~= self@.files);
        }
        let digest = sha256_digest(input.as_str());
        bytes_to_hex(&digest)
    }

    /// A copy of a member list with equal contents.
    fn clone_string_vec(v: &Vec<String>) -> (r: Vec<String>)
        ensures
            r.deep_view() == v.deep_view(),
    {
        let mut out: Vec<String> = Vec::new();
        let mut i: usize = 0;
        while i < v.len()
            invariant
                i <= v@.len(),
                out@.len() == i,
                forall|j: int| 0 <= j < i ==> (#[trigger] out@[j]@) == v@[j]@,
            decreases v@.len() - i,
        {
            out.push(v[i].clone());
            i = i + 1;
        }
        proof {
            assert(out.deep_view() =~= v.deep_view());
        }
        out
    }

    /// Replaces the cached duplicate groups for `threshold`: existing
    /// rows of that threshold are deleted, the given groups of two or
    /// more members are inserted under the current fingerprint, and
    /// the whole replacement commits as one transaction — a failure
    /// leaves the prior state intact. Groups of fewer than two
    /// members are dropped silently, so an empty list simply deletes
    /// the threshold's rows.
    pub fn store_duplicate_groups(&mut self, threshold: u32, duplicates: &Vec<Vec<String>>) -> (r:
        Result<(), CoreError>)
        requires
            old(self).wf(),
        ensures
            final(self).wf(),
            r is Ok ==> final(self)@ == store_groups_spec(
                old(self)@,
                threshold,
                duplicates.deep_view(),
            ),
            r is Err ==> final(self)@ == old(self)@ && r->Err_0 is Store,
    {
        let fp = self.fingerprint_string();
        // Build the new rows before touching anything.
        let mut new_rows: Vec<GroupRow> = Vec::new();
        let mut i: usize = 0;
        proof {
            reveal(Seq::filter);
            assert(new_rows.deep_view() =~= group_rows_of(
                big_groups(duplicates.deep_view().subrange(0, 0)),
                threshold,
                fp@,
            ));
        }
        while i < duplicates.len()
            invariant
                i <= duplicates@.len(),
                fp@ == fingerprint_spec(self@),
                new_rows.deep_view() == group_rows_of(
                    big_groups(duplicates.deep_view().subrange(0, i as int)),
                    threshold,
                    fp@,
                ),
                forall|j: int|
                    0 <= j < new_rows.deep_view().len() ==> (#[trigger] new_rows.deep_view()[j]).members.len() >= 2,
            decreases duplicates@.len() - i,
        {
            let ghost pre = duplicates.deep_view().subrange(0, i as int);
            let ghost cur = duplicates.deep_view().subrange(0, i as int + 1);
            proof {
                reveal(Seq::filter);
                assert(cur.drop_last() =~= pre);
                assert(cur.last() == duplicates.deep_view()[i as int]);
            }
            if duplicates[i].len() >= 2 {
                let ghost before = new_rows.deep_view();
                let members = Self::clone_string_vec(&duplicates[i]);
                new_rows.push(GroupRow { threshold, fingerprint: fp.clone(), members });
                proof {
                    assert(new_rows.deep_view() =~= before.push(
                        GroupRowV {
                            threshold,
                            fingerprint: fp@,
                            members: duplicates.deep_view()[i as int],
                        },
                    ));
                    assert(new_rows.deep_view() =~= group_rows_of(
                        big_groups(cur),
                        threshold,
                        fp@,
                    ));
                }
            } else {
                proof {
                    assert(new_rows.deep_view() =~= group_rows_of(big_groups(cur), threshold, fp@));
                }
            }
            i = i + 1;
        }
        proof {
            assert(duplicates.deep_view().subrange(0, duplicates.deep_view().len() as int)
                =~= duplicates.deep_view());
        }
        // Mirror the replacement to the database, atomically.
        match db_begin(&self.conn) {
            Ok(()) => {},
            Err(e) => {
                return Err(store_err(&e));
            },
        }
        match Self::write_groups_transaction(&self.conn, threshold, &fp, &new_rows) {
            Ok(()) => {},
            Err(e) => {
                let _ = db_rollback(&self.conn);
                return Err(store_err(&e));
            },
        }
        match db_commit(&self.conn) {
            Ok(()) => {},
            Err(e) => {
                let _ = db_rollback(&self.conn);
                return Err(store_err(&e));
            },
        }
        // Apply to the working copy: keep other thresholds, add the
        // new rows.
        let ghost orig = self@;
        let mut kept: Vec<GroupRow> = Vec::new();
        let mut g: usize = 0;
        proof {
            reveal(Seq::filter);
            assert(kept.deep_view() =~= groups_for_other_thresholds(
                self@.groups.subrange(0, 0),
                threshold,
            ));
        }
        while g < self.groups.len()
            invariant
                g <= self@.groups.len(),
                kept.deep_view() == groups_for_other_thresholds(
                    self@.groups.subrange(0, g as int),
                    threshold,
                ),
            decreases self@.groups.len() - g,
        {
            let ghost pre = self@.groups.subrange(0, g as int);
            let ghost cur = self@.groups.subrange(0, g as int + 1);
            proof {
                reveal(Seq::filter);
                assert(cur.drop_last() =~= pre);
                assert(cur.last() == self@.groups[g as int]);
            }
            if self.groups[g].threshold != threshold {
                let ghost before = kept.deep_view();
                kept.push(
                    GroupRow {
                        threshold: self.groups[g].threshold,
                        fingerprint: self.groups[g].fingerprint.clone(),
                        members: Self::clone_string_vec(&self.groups[g].members),
                    },
                );
                proof {
                    assert(kept.deep_view() =~= before.push(self@.groups[g as int]));
                }
            }
            g = g + 1;
        }
        proof {
            assert(self@.groups.subrange(0, self@.groups.len() as int) =~= self@.groups);
        }
        let ghost kept_v = kept.deep_view();
        let ghost new_v = new_rows.deep_view();
        let mut all = kept;
        all.append(&mut new_rows);
        self.groups = all;
        proof {
            assert(self@.groups =~= kept_v + new_v);
            assert(self@.files == orig.files && self@.hashes == orig.hashes);
            assert forall|j: int|
                0 <= j < self@.groups.len() implies (#[trigger] self@.groups[j]).members.len()
                >= 2 by {
                if j < kept_v.len() {
                    lemma_filter_member(orig.groups, |r: GroupRowV| r.threshold != threshold, j);
                    let k = choose|k: int|
                        0 <= k < orig.groups.len() && orig.groups[k] == kept_v[j];
                } else {
                    assert(self@.groups[j] == new_v[j - kept_v.len()]);
                }
            }
            assert(self@ == store_groups_spec(orig, threshold, duplicates.deep_view()));
        }
        Ok(())
    }

    /// The writes of the group replacement, between begin and commit.
    fn write_groups_transaction(
        conn: &rusqlite::Connection,
        threshold: u32,
        fp: &String,
        rows: &Vec<GroupRow>,
    ) -> Result<(), rusqlite::Error> {
        db_delete_groups_for_threshold(conn, threshold)?;
        let mut i: usize = 0;
        while i < rows.len()
            invariant
                i <= rows@.len(),
            decreases rows@.len() - i,
        {
            let gid = db_insert_group(conn, threshold, fp)?;
            let mut k: usize = 0;
            while k < rows[i].members.len()
                invariant
                    i < rows@.len(),
                    k <= rows@[i as int].members@.len(),
                decreases rows@[i as int].members@.len() - k,
            {
                db_insert_group_file(conn, gid, &rows[i].members[k])?;
                k = k + 1;
            }
            i = i + 1;
        }
        Ok(())
    }

    /// Returns the cached groups for `threshold` only if groups are
    /// cached whose stored fingerprint equals the store's current
    /// fingerprint; otherwise nothing, and the caller must recompute.
    pub fn get_cached_duplicate_groups(&self, threshold: u32) -> (r: Option<Vec<Vec<String>>>)
        requires
            self.wf(),
        ensures
            r is Some <==> load_groups_spec(self@, threshold) is Some,
            r is Some ==> r->0.deep_view() == load_groups_spec(self@, threshold)->0,
    {
        let fp = self.fingerprint_string();
        let mut out: Vec<Vec<String>> = Vec::new();
        let mut g: usize = 0;
        proof {
            reveal(Seq::filter);
            assert(out.deep_view() =~= members_of(
                groups_matching(self@.groups.subrange(0, 0), threshold, fp@),
            ));
        }
        while g < self.groups.len()
            invariant
                g <= self@.groups.len(),
                fp@ == fingerprint_spec(self@),
                out.deep_view() == members_of(
                    groups_matching(self@.groups.subrange(0, g as int), threshold, fp@),
                ),
            decreases self@.groups.len() - g,
        {
            let ghost pre = self@.groups.subrange(0, g as int);
            let ghost cur = self@.groups.subrange(0, g as int + 1);
            proof {
                reveal(Seq::filter);
                assert(cur.drop_last() =~= pre);
                assert(cur.last() == self@.groups[g as int]);
            }
            if self.groups[g].threshold == threshold && str_eq(
                self.groups[g].fingerprint.as_str(),
                fp.as_str(),
            ) {
                let ghost before = out.deep_view();
                out.push(Self::clone_string_vec(&self.groups[g].members));
                proof {
                    assert(out.deep_view() =~= before.push(self@.groups[g as int].members));
                    assert(out.deep_view() =~= members_of(
                        groups_matching(cur, threshold, fp@),
                    ));
                }
            } else {
                proof {
                    assert(out.deep_view() =~= members_of(groups_matching(cur, threshold, fp@)));
                }
            }
            g = g + 1;
        }
        proof {
            assert(self@.groups.subrange(0, self@.groups.len() as int) =~= self@.groups);
        }
        if out.len() == 0 {
            None
        } else {
            Some(out)
        }
    }

    /// How many file rows and hash rows the store holds; the gap
    /// between the two is the deduplication the content digests buy.
    pub fn table_counts(&self) -> (r: (usize, usize))
        ensures
            r.0 == self@.files.len(),
            r.1 == self@.hashes.len(),
    {
        (self.files.len(), self.hashes.len())
    }

    /// Unconditionally deletes all cached duplicate groups.
    pub fn clear_duplicate_groups_cache(&mut self) -> (r: Result<(), CoreError>)
        requires
            old(self).wf(),
        ensures
            final(self).wf(),
            r is Ok ==> final(self)@ == (StoreModel {
                files: old(self)@.files,
                hashes: old(self)@.hashes,
                groups: Seq::empty(),
            }),
            r is Err ==> final(self)@ == old(self)@ && r->Err_0 is Store,
    {
        match db_clear_groups(&self.conn) {
            Ok(_) => {},
            Err(e) => {
                return Err(store_err(&e));
            },
        }
        self.groups = Vec::new();
        proof {
            assert(self@.groups =~= Seq::<GroupRowV>::empty());
        }
        Ok(())
    }
}

// ---------------------------------------------------------------------------
// Laws
// ---------------------------------------------------------------------------
/// A filter that accepts every element changes nothing.
proof fn lemma_filter_all<A>(s: Seq<A>, pred: spec_fn(A) -> bool)
    requires
        forall|i: int| 0 <= i < s.len() ==> pred(#[trigger] s[i]),
    ensures
        s.filter(pred) == s,
    decreases s.len(),
{
    reveal(Seq::filter);
    if s.len() > 0 {
        let pre = s.drop_last();
        assert(forall|i: int| 0 <= i < pre.len() ==> (#[trigger] pre[i]) == s[i]);
        lemma_filter_all(pre, pred);
        assert(s.filter(pred) =~= s);
    } else {
        assert(s.filter(pred) =~= s);
    }
}

/// A filter that rejects every element leaves nothing.
proof fn lemma_filter_nothing<A>(s: Seq<A>, pred: spec_fn(A) -> bool)
    requires
        forall|i: int| 0 <= i < s.len() ==> !pred(#[trigger] s[i]),
    ensures
        s.filter(pred) == Seq::<A>::empty(),
    decreases s.len(),
{
    reveal(Seq::filter);
    if s.len() > 0 {
        let pre = s.drop_last();
        assert(forall|i: int| 0 <= i < pre.len() ==> (#[trigger] pre[i]) == s[i]);
        lemma_filter_nothing(pre, pred);
        assert(s.filter(pred) =~= Seq::<A>::empty());
    } else {
        assert(s.filter(pred) =~= Seq::<A>::empty());
    }
}

/// Forgetting a path the store does not know is a no-op on the file
/// and hash tables; only the cached duplicate groups are cleared.
pub proof fn lemma_forget_unknown_path(m: StoreModel, path: Seq<char>)
    requires
        model_wf(m),
        find_file(m.files, path) is None,
    ensures
        forget_spec(m, path).files == m.files,
        forget_spec(m, path).hashes == m.hashes,
        forget_spec(m, path).groups == Seq::<GroupRowV>::empty(),
{
    lemma_find_file_present(m.files, path);
    lemma_filter_all(m.files, |f: FileRowV| f.path != path);
    assert(forget_spec(m, path).files == m.files);
    lemma_filter_all(m.hashes, |h: HashRowV| sha_referenced(m.files, h.sha256));
}

/// Storing a group list for a threshold and loading that threshold
/// right back, with no intervening change to the store, returns
/// exactly the stored groups of two or more members, in order; when
/// no stored group had two members, nothing is cached for the
/// threshold any more and the load reports so.
pub proof fn lemma_group_round_trip(m: StoreModel, t: u32, groups: Seq<Seq<Seq<char>>>)
    requires
        model_wf(m),
    ensures
        big_groups(groups).len() > 0 ==> load_groups_spec(store_groups_spec(m, t, groups), t)
            == Some(big_groups(groups)),
        big_groups(groups).len() == 0 ==> load_groups_spec(store_groups_spec(m, t, groups), t)
            is None,
{
    let m2 = store_groups_spec(m, t, groups);
    let fp = fingerprint_spec(m);
    assert(fingerprint_spec(m2) == fp);
    let others = groups_for_other_thresholds(m.groups, t);
    let fresh = group_rows_of(big_groups(groups), t, fp);
    assert(m2.groups == others + fresh);
    let match_pred = |r: GroupRowV| r.threshold == t && r.fingerprint == fp;
    Seq::filter_distributes_over_add(others, fresh, match_pred);
    assert forall|i: int| 0 <= i < others.len() implies !match_pred(#[trigger] others[i]) by {
        Seq::lemma_filter_pred(m.groups, |r: GroupRowV| r.threshold != t, i);
    }
    lemma_filter_nothing(others, match_pred);
    assert(forall|i: int| 0 <= i < fresh.len() ==> match_pred(#[trigger] fresh[i]));
    lemma_filter_all(fresh, match_pred);
    assert(groups_matching(m2.groups, t, fp) =~= fresh);
    assert(members_of(fresh) =~= big_groups(groups));
}

/// The unique hash row for a digest determines `phash_for`.
proof fn lemma_phash_for_unique(hashes: Seq<HashRowV>, sha: Seq<char>, i: int)
    requires
        shas_distinct(hashes),
        0 <= i < hashes.len(),
        hashes[i].sha256 == sha,
    ensures
        phash_for(hashes, sha) == Some(hashes[i].perceptual_hash),
    decreases i,
{
    if i > 0 {
        assert(hashes[0].sha256 != sha);
        let rest = hashes.drop_first();
        assert(forall|j: int| 0 <= j < rest.len() ==> (#[trigger] rest[j]) == hashes[j + 1]);
        lemma_phash_for_unique(rest, sha, i - 1);
    }
}

/// The fingerprint text does not depend on hash rows beyond the
/// values `phash_for` yields for the digests the files reference.
proof fn lemma_fingerprint_input_same_hashes(
    files: Seq<FileRowV>,
    h1: Seq<HashRowV>,
    h2: Seq<HashRowV>,
)
    requires
        forall|i: int|
            0 <= i < files.len() ==> phash_for(h2, (#[trigger] files[i]).sha256) == phash_for(
                h1,
                files[i].sha256,
            ),
    ensures
        fingerprint_input_rec(files, h2) == fingerprint_input_rec(files, h1),
    decreases files.len(),
{
    if files.len() > 0 {
        let pre = files.drop_last();
        assert(forall|i: int| 0 <= i < pre.len() ==> (#[trigger] pre[i]) == files[i]);
        lemma_fingerprint_input_same_hashes(pre, h1, h2);
    }
}

/// Inserting one file row lengthens the fingerprint text by that
/// row's segment.
proof fn lemma_fingerprint_input_insert(
    files: Seq<FileRowV>,
    fv: FileRowV,
    pos: int,
    hashes: Seq<HashRowV>,
)
    requires
        0 <= pos <= files.len(),
    ensures
        fingerprint_input_rec(files.insert(pos, fv), hashes).len() == fingerprint_input_rec(
            files,
            hashes,
        ).len() + fv.path.len() + phash_for(hashes, fv.sha256)->0.len(),
    decreases files.len(),
{
    let files1 = files.insert(pos, fv);
    if pos == files.len() {
        assert(files1.drop_last() =~= files);
        assert(files1.last() == fv);
    } else {
        assert(files1.last() == files.last());
        assert(files1.drop_last() =~= files.drop_last().insert(pos, fv));
        lemma_fingerprint_input_insert(files.drop_last(), fv, pos, hashes);
    }
}

/// The sorted upsert of an absent path is an insertion at some
/// position.
proof fn lemma_insert_file_shape(files: Seq<FileRowV>, f: FileRowV)
    requires
        files_sorted(files),
        find_file(files, f.path) is None,
    ensures
        exists|pos: int|
            0 <= pos <= files.len() && insert_file(files, f) == #[trigger] files.insert(pos, f),
    decreases files.len(),
{
    if files.len() == 0 {
        assert(insert_file(files, f) =~= files.insert(0, f));
    } else if lex_lt(f.path, files[0].path) {
        assert(insert_file(files, f) =~= files.insert(0, f));
    } else {
        assert(f.path != files[0].path);
        let rest = files.drop_first();
        assert(files_sorted(rest)) by {
            assert(forall|i: int| 0 <= i < rest.len() ==> (#[trigger] rest[i]) == files[i + 1]);
        }
        lemma_insert_file_shape(rest, f);
        let p = choose|p: int|
            0 <= p <= rest.len() && insert_file(rest, f) == #[trigger] rest.insert(p, f);
        assert(insert_file(files, f) == seq![files[0]] + rest.insert(p, f));
        assert(seq![files[0]] + rest.insert(p, f) =~= files.insert(p + 1, f));
    }
}

/// Recording a file under a path the store does not yet know changes
/// the fingerprint text (it grows by the new row's segment), so
/// previously cached groups are stamped with the digest of a
/// different text afterwards. Staleness detection rests on these
/// texts differing; the digest itself is collision resistant, not
/// injective.
pub proof fn lemma_record_changes_fingerprint_input(
    m: StoreModel,
    path: Seq<char>,
    size: u64,
    sha: Seq<char>,
    phash: Seq<char>,
)
    requires
        model_wf(m),
        find_file(m.files, path) is None,
        path.len() > 0,
    ensures
        fingerprint_input(record_spec(m, path, size, sha, phash)) != fingerprint_input(m),
{
    let fv = FileRowV { path, size, sha256: sha };
    let m2 = record_spec(m, path, size, sha, phash);
    let hashes1 = if has_sha(m.hashes, sha) {
        m.hashes
    } else {
        m.hashes.push(HashRowV { sha256: sha, perceptual_hash: phash })
    };
    // The extended hash table is still distinct and answers the same
    // for every digest the old files reference.
    assert(shas_distinct(hashes1) && has_sha(hashes1, sha)) by {
        if !has_sha(m.hashes, sha) {
            assert(forall|i: int|
                0 <= i < m.hashes.len() ==> (#[trigger] hashes1[i]) == m.hashes[i]);
            assert(hashes1[m.hashes.len() as int].sha256 == sha);
            assert forall|i: int, j: int|
                0 <= i < j < hashes1.len() implies (#[trigger] hashes1[i].sha256) != (
            #[trigger] hashes1[j].sha256) by {
                if j == m.hashes.len() {
                    assert(m.hashes[i].sha256 != sha);
                }
            }
        }
    }
    lemma_insert_file_shape(m.files, fv);
    let pos = choose|pos: int|
        0 <= pos <= m.files.len() && insert_file(m.files, fv) == #[trigger] m.files.insert(pos, fv);
    let files1 = m2.files;
    assert(files1 == m.files.insert(pos, fv));
    // Every old row survives the insertion, so every old digest stays
    // referenced and its hash row survives the orphan collection.
    assert forall|i: int| 0 <= i < m.files.len() implies sha_referenced(
        files1,
        (#[trigger] m.files[i]).sha256,
    ) by {
        if i < pos {
            assert(files1[i] == m.files[i]);
        } else {
            assert(files1[i + 1] == m.files[i]);
        }
    }
    assert(sha_referenced(files1, sha)) by {
        assert(files1[pos] == fv);
        assert(files1[pos].sha256 == sha);
    }
    let pred = |h: HashRowV| sha_referenced(files1, h.sha256);
    let hashes2 = m2.hashes;
    assert(hashes2 == hashes1.filter(pred));
    lemma_filter_hashes_distinct(hashes1, pred);
    assert forall|i: int|
        0 <= i < files1.len() implies phash_for(hashes2, (#[trigger] files1[i]).sha256)
        == phash_for(hashes1, files1[i].sha256) by {
        let s = files1[i].sha256;
        assert(has_sha(hashes1, s)) by {
            if files1[i] == fv {
            } else {
                let k = choose|k: int|
                    0 <= k < m.files.len()
                        && (i < pos && m.files[k] == files1[i] && k == i
                        || i > pos && m.files[k] == files1[i] && k == i - 1
                        || m.files[k] == files1[i]);
                assert(i != pos ==> (if i < pos {
                    files1[i] == m.files[i]
                } else {
                    files1[i] == m.files[i - 1]
                }));
                if i < pos {
                    assert(has_sha(m.hashes, m.files[i].sha256));
                    let h = choose|h: int|
                        0 <= h < m.hashes.len() && (#[trigger] m.hashes[h].sha256)
                            == m.files[i].sha256;
                    assert(hashes1[h].sha256 == s);
                } else {
                    assert(has_sha(m.hashes, m.files[i - 1].sha256));
                    let h = choose|h: int|
                        0 <= h < m.hashes.len() && (#[trigger] m.hashes[h].sha256)
                            == m.files[i - 1].sha256;
                    assert(hashes1[h].sha256 == s);
                }
            }
        }
        let k = choose|k: int| 0 <= k < hashes1.len() && (#[trigger] hashes1[k].sha256) == s;
        lemma_phash_for_unique(hashes1, s, k);
        assert(sha_referenced(files1, s)) by {
            assert(files1[i].sha256 == s);
        }
        assert(pred(hashes1[k]));
        Seq::lemma_filter_contains(hashes1, pred, k);
        let j = choose|j: int| 0 <= j < hashes2.len() && hashes2[j] == hashes1[k];
        lemma_phash_for_unique(hashes2, s, j);
    }
    assert forall|i: int| 0 <= i < m.files.len() implies phash_for(
        hashes2,
        (#[trigger] m.files[i]).sha256,
    ) == phash_for(m.hashes, m.files[i].sha256) by {
        let s = m.files[i].sha256;
        let h = choose|h: int| 0 <= h < m.hashes.len() && (#[trigger] m.hashes[h].sha256) == s;
        lemma_phash_for_unique(m.hashes, s, h);
        assert(hashes1[h] == m.hashes[h]);
        lemma_phash_for_unique(hashes1, s, h);
        let ii = if i < pos {
            i
        } else {
            i + 1
        };
        assert(files1[ii] == m.files[i]);
        assert(phash_for(hashes2, files1[ii].sha256) == phash_for(hashes1, files1[ii].sha256));
    }
    lemma_fingerprint_input_same_hashes(m.files, m.hashes, hashes2);
    lemma_fingerprint_input_insert(m.files, fv, pos, hashes2);
    assert(fingerprint_input(m2).len() == fingerprint_input(m).len() + fv.path.len() + phash_for(
        hashes2,
        sha,
    )->0.len());
    assert(fingerprint_input(m2).len() > fingerprint_input(m).len());
}

/// The upserted row is what a later lookup finds for its path.
proof fn lemma_find_in_insert(files: Seq<FileRowV>, f: FileRowV)
    requires
        files_sorted(files),
    ensures
        find_file(insert_file(files, f), f.path) == Some(f),
    decreases files.len(),
{
    if files.len() == 0 {
    } else if lex_lt(f.path, files[0].path) {
        assert(insert_file(files, f)[0] == f);
    } else if f.path == files[0].path {
        assert(insert_file(files, f)[0] == f);
    } else {
        let rest = files.drop_first();
        assert(files_sorted(rest)) by {
            assert(forall|i: int| 0 <= i < rest.len() ==> (#[trigger] rest[i]) == files[i + 1]);
        }
        lemma_find_in_insert(rest, f);
        let out = insert_file(files, f);
        assert(out == seq![files[0]] + insert_file(rest, f));
        assert(out[0] == files[0]);
        assert(out.drop_first() =~= insert_file(rest, f));
    }
}

/// Recording a file makes the exact same (path, size, digest) probe
/// a cache hit: the hash the store then returns is the one held for
/// that digest (the digest's first recorded hash, which recording
/// identical data leaves untouched — the operation is idempotent).
pub proof fn lemma_lookup_after_record(
    m: StoreModel,
    path: Seq<char>,
    size: u64,
    sha: Seq<char>,
    phash: Seq<char>,
)
    requires
        model_wf(m),
    ensures
        lookup_spec(record_spec(m, path, size, sha, phash), path, size, sha) is Some,
        !has_sha(m.hashes, sha) ==> lookup_spec(record_spec(m, path, size, sha, phash), path, size, sha)
            == Some(phash),
{
    let fv = FileRowV { path, size, sha256: sha };
    let m2 = record_spec(m, path, size, sha, phash);
    let hashes1 = if has_sha(m.hashes, sha) {
        m.hashes
    } else {
        m.hashes.push(HashRowV { sha256: sha, perceptual_hash: phash })
    };
    let files1 = m2.files;
    lemma_find_in_insert(m.files, fv);
    assert(find_file(files1, path) == Some(fv));
    lemma_find_file_present(files1, path);
    let idx = choose|i: int|
        0 <= i < files1.len() && (#[trigger] files1[i]) == find_file(files1, path)->0
            && files1[i].path == path;
    assert(sha_referenced(files1, sha)) by {
        assert(files1[idx].sha256 == sha);
    }
    assert(has_sha(hashes1, sha)) by {
        if !has_sha(m.hashes, sha) {
            assert(hashes1[m.hashes.len() as int].sha256 == sha);
        }
    }
    lemma_filter_keeps_sha(hashes1, files1, sha);
    lemma_phash_for_present(m2.hashes, sha);
    if !has_sha(m.hashes, sha) {
        assert(shas_distinct(hashes1)) by {
            assert(forall|i: int|
                0 <= i < m.hashes.len() ==> (#[trigger] hashes1[i]) == m.hashes[i]);
            assert forall|i: int, j: int|
                0 <= i < j < hashes1.len() implies (#[trigger] hashes1[i].sha256) != (
            #[trigger] hashes1[j].sha256) by {
                if j == m.hashes.len() {
                    assert(m.hashes[i].sha256 != sha);
                }
            }
        }
        let pred = |h: HashRowV| sha_referenced(files1, h.sha256);
        lemma_filter_hashes_distinct(hashes1, pred);
        let nh = HashRowV { sha256: sha, perceptual_hash: phash };
        assert(hashes1[m.hashes.len() as int] == nh);
        assert(pred(nh));
        Seq::lemma_filter_contains(hashes1, pred, m.hashes.len() as int);
        let k = choose|k: int| 0 <= k < m2.hashes.len() && m2.hashes[k] == nh;
        lemma_phash_for_unique(m2.hashes, sha, k);
    }
}

/// Every row of the upserted table is the new row or one of the old
/// rows.
proof fn lemma_insert_file_members(files: Seq<FileRowV>, f: FileRowV)
    ensures
        forall|i: int|
            0 <= i < insert_file(files, f).len() ==> (#[trigger] insert_file(files, f)[i]) == f
                || files.contains(insert_file(files, f)[i]),
    decreases files.len(),
{
    let out = insert_file(files, f);
    if files.len() == 0 {
    } else if lex_lt(f.path, files[0].path) {
        assert forall|i: int| 0 <= i < out.len() implies (#[trigger] out[i]) == f || files.contains(
            out[i],
        ) by {
            if i > 0 {
                assert(out[i] == files[i - 1]);
            }
        }
    } else if f.path == files[0].path {
        assert forall|i: int| 0 <= i < out.len() implies (#[trigger] out[i]) == f || files.contains(
            out[i],
        ) by {
            if i > 0 {
                assert(out[i] == files[i]);
            }
        }
    } else {
        let rest = files.drop_first();
        lemma_insert_file_members(rest, f);
        let inner = insert_file(rest, f);
        assert forall|i: int| 0 <= i < out.len() implies (#[trigger] out[i]) == f || files.contains(
            out[i],
        ) by {
            if i == 0 {
                assert(out[0] == files[0]);
            } else {
                assert(out[i] == inner[i - 1]);
                if inner[i - 1] != f {
                    let k = choose|k: int| 0 <= k < rest.len() && rest[k] == inner[i - 1];
                    assert(files[k + 1] == rest[k]);
                }
            }
        }
    }
}

/// The upsert keeps the table sorted.
proof fn lemma_insert_file_sorted(files: Seq<FileRowV>, f: FileRowV)
    requires
        files_sorted(files),
    ensures
        files_sorted(insert_file(files, f)),
    decreases files.len(),
{
    let out = insert_file(files, f);
    if files.len() == 0 {
    } else if lex_lt(f.path, files[0].path) {
        assert forall|i: int, j: int|
            0 <= i < j < out.len() implies lex_lt(#[trigger] out[i].path, #[trigger] out[j].path) by {
            if i == 0 {
                assert(out[j] == files[j - 1]);
                if j - 1 > 0 {
                    crate::order::lemma_lex_lt_transitive(
                        f.path,
                        files[0].path,
                        files[j - 1].path,
                    );
                }
            } else {
                assert(out[i] == files[i - 1] && out[j] == files[j - 1]);
            }
        }
    } else if f.path == files[0].path {
        assert forall|i: int, j: int|
            0 <= i < j < out.len() implies lex_lt(#[trigger] out[i].path, #[trigger] out[j].path) by {
            if i == 0 {
                assert(out[j] == files[j]);
            } else {
                assert(out[i] == files[i] && out[j] == files[j]);
            }
        }
    } else {
        assert(lex_lt(files[0].path, f.path)) by {
            crate::order::lemma_lex_le_total(f.path, files[0].path);
        }
        let rest = files.drop_first();
        assert(files_sorted(rest)) by {
            assert(forall|i: int| 0 <= i < rest.len() ==> (#[trigger] rest[i]) == files[i + 1]);
        }
        lemma_insert_file_sorted(rest, f);
        lemma_insert_file_members(rest, f);
        let inner = insert_file(rest, f);
        assert forall|i: int, j: int|
            0 <= i < j < out.len() implies lex_lt(#[trigger] out[i].path, #[trigger] out[j].path) by {
            if i == 0 {
                assert(out[j] == inner[j - 1]);
                if inner[j - 1] == f {
                } else {
                    let k = choose|k: int| 0 <= k < rest.len() && rest[k] == inner[j - 1];
                    assert(files[k + 1] == rest[k]);
                    assert(lex_lt(files[0].path, files[k + 1].path));
                }
            } else {
                assert(out[i] == inner[i - 1] && out[j] == inner[j - 1]);
            }
        }
    }
}

/// `record` keeps the store well formed, stated over the model
/// alone.
pub proof fn lemma_record_spec_wf(
    m: StoreModel,
    path: Seq<char>,
    size: u64,
    sha: Seq<char>,
    phash: Seq<char>,
)
    requires
        model_wf(m),
    ensures
        model_wf(record_spec(m, path, size, sha, phash)),
{
    let fv = FileRowV { path, size, sha256: sha };
    let hashes1 = if has_sha(m.hashes, sha) {
        m.hashes
    } else {
        m.hashes.push(HashRowV { sha256: sha, perceptual_hash: phash })
    };
    let files1 = insert_file(m.files, fv);
    assert(shas_distinct(hashes1) && has_sha(hashes1, sha)) by {
        if !has_sha(m.hashes, sha) {
            assert(forall|i: int|
                0 <= i < m.hashes.len() ==> (#[trigger] hashes1[i]) == m.hashes[i]);
            assert(hashes1[m.hashes.len() as int].sha256 == sha);
            assert forall|i: int, j: int|
                0 <= i < j < hashes1.len() implies (#[trigger] hashes1[i].sha256) != (
            #[trigger] hashes1[j].sha256) by {
                if j == m.hashes.len() {
                    assert(m.hashes[i].sha256 != sha);
                }
            }
        }
    }
    lemma_insert_file_sorted(m.files, fv);
    lemma_insert_file_members(m.files, fv);
    lemma_find_in_insert(m.files, fv);
    lemma_find_file_present(files1, path);
    let idx = choose|i: int|
        0 <= i < files1.len() && (#[trigger] files1[i]) == find_file(files1, path)->0
            && files1[i].path == path;
    assert(files1[idx] == fv);
    assert forall|i: int|
        0 <= i < m.hashes.len() implies has_sha(hashes1, (#[trigger] m.hashes[i]).sha256) by {
        assert(hashes1[i] == m.hashes[i]);
    }
    assert forall|i: int|
        0 <= i < files1.len() implies (#[trigger] files1[i]) == fv || m.files.contains(
        files1[i],
    ) by {}
    lemma_record_wf(m, files1, hashes1, fv);
}

/// `record` is idempotent: recording identical data twice only
/// rewrites identical rows, leaving the store exactly as after the
/// first call.
pub proof fn lemma_record_idempotent(
    m: StoreModel,
    path: Seq<char>,
    size: u64,
    sha: Seq<char>,
    phash: Seq<char>,
)
    requires
        model_wf(m),
    ensures
        record_spec(record_spec(m, path, size, sha, phash), path, size, sha, phash) == record_spec(
            m,
            path,
            size,
            sha,
            phash,
        ),
{
    let fv = FileRowV { path, size, sha256: sha };
    let m1 = record_spec(m, path, size, sha, phash);
    lemma_record_spec_wf(m, path, size, sha, phash);
    // The digest is present after the first record, so the hash
    // table is not extended again.
    lemma_find_in_insert(m.files, fv);
    lemma_find_file_present(m1.files, path);
    let idx = choose|i: int|
        0 <= i < m1.files.len() && (#[trigger] m1.files[i]) == find_file(m1.files, path)->0
            && m1.files[i].path == path;
    assert(m1.files[idx] == fv);
    assert(has_sha(m1.hashes, sha));
    // The file row is already in place, so the second upsert changes
    // nothing.
    lemma_insert_file_stable(m1.files, fv);
    assert(insert_file(m1.files, fv) == m1.files);
    // No row of a well-formed store is orphaned, so the collection
    // pass keeps every row.
    lemma_filter_all(m1.hashes, |h: HashRowV| sha_referenced(m1.files, h.sha256));
    assert(record_spec(m1, path, size, sha, phash) == m1);
}

/// Upserting a row the sorted table already holds changes nothing.
proof fn lemma_insert_file_stable(files: Seq<FileRowV>, f: FileRowV)
    requires
        files_sorted(files),
        find_file(files, f.path) == Some(f),
    ensures
        insert_file(files, f) == files,
    decreases files.len(),
{
    lemma_find_file_present(files, f.path);
    let k = choose|i: int|
        0 <= i < files.len() && (#[trigger] files[i]) == find_file(files, f.path)->0
            && files[i].path == f.path;
    if lex_lt(f.path, files[0].path) {
        if k == 0 {
            assert(false);
        } else {
            assert(lex_lt(files[0].path, files[k].path));
            crate::order::lemma_lex_lt_transitive(f.path, files[0].path, files[k].path);
            assert(false);
        }
    } else if f.path == files[0].path {
        assert(find_file(files, f.path) == Some(files[0]));
        assert(files[0] == f);
        assert(insert_file(files, f) =~= files);
    } else {
        let rest = files.drop_first();
        assert(files_sorted(rest)) by {
            assert(forall|i: int| 0 <= i < rest.len() ==> (#[trigger] rest[i]) == files[i + 1]);
        }
        assert(find_file(rest, f.path) == Some(f));
        lemma_insert_file_stable(rest, f);
        assert(insert_file(files, f) == seq![files[0]] + insert_file(rest, f));
        assert(seq![files[0]] + rest =~= files);
    }
}

} // verus!

