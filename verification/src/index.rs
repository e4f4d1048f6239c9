use vstd::prelude::*;

use redb::{ReadableDatabase, ReadableTable};

use crate::error::StreamError;
use crate::types::{decode_meta, encode_meta, encode_meta_bytes, decode_meta_bytes, FileMetadata,
    MediaHash, MetaView};

verus! {

use vstd::string::StringExecFns;

// ============================================================
// The durable dual-indexed store
//
// One transactional key-value database holds two tables: `files`
// maps a path to the encoded metadata record, and `hash_index`
// maps a content hash to the path that currently owns it. The
// database itself is redb's; the two spec maps below name what
// its tables hold, and every operation's contract is stated over
// them. Cross-table consistency lives entirely in this module:
// a write always touches both tables in one transaction.
// ============================================================

#[verifier::external_type_specification]
#[verifier::external_body]
pub struct ExDatabase(redb::Database);

/// Wraps a storage-layer failure's message.
fn db_err<E: core::fmt::Display>(e: E) -> StreamError {
    StreamError::Database(e.to_string())
}

/// What the `files` table holds: path -> encoded record.
pub uninterp spec fn files_table_of(db: redb::Database) -> Map<Seq<char>, Seq<u8>>;

/// What the `hash_index` table holds: content hash -> owning path.
pub uninterp spec fn hash_table_of(db: redb::Database) -> Map<Seq<char>, Seq<char>>;

/// Relies on `redb::Database::create` and `WriteTransaction::open_table`:
/// opens or creates the store at `path` and ensures both tables exist,
/// idempotently; any failure is reported, not raised.
#[verifier::external_body]
fn db_open_raw(path: &str) -> (r: Result<redb::Database, StreamError>)
    ensures
        r matches Err(e) ==> e matches StreamError::Database(_),
{
    let db = redb::Database::create(path).map_err(db_err)?;
    let txn = db.begin_write().map_err(db_err)?;
    {
        txn.open_table(redb::TableDefinition::<&str, &[u8]>::new("files")).map_err(db_err)?;
        txn.open_table(redb::TableDefinition::<&str, &str>::new("hash_index")).map_err(db_err)?;
    }
    txn.commit().map_err(db_err)?;
    Ok(db)
}

/// Relies on `redb::Table::insert` inside one write transaction: on
/// commit both tables hold the new mappings; an aborted transaction
/// (any error path) leaves the database unchanged.
#[verifier::external_body]
fn db_put_pair(db: &mut redb::Database, path: &str, meta: &Vec<u8>, hash: &str) -> (r: Result<
    (),
    StreamError,
>)
    ensures
        r is Ok ==> files_table_of(*final(db)) == files_table_of(*old(db)).insert(path@, meta@)
            && hash_table_of(*final(db)) == hash_table_of(*old(db)).insert(hash@, path@),
        r is Err ==> files_table_of(*final(db)) == files_table_of(*old(db)) && hash_table_of(
            *final(db),
        ) == hash_table_of(*old(db)),
        r matches Err(e) ==> e matches StreamError::Database(_),
{
    let txn = db.begin_write().map_err(db_err)?;
    {
        let mut ft = txn.open_table(redb::TableDefinition::<&str, &[u8]>::new("files")).map_err(db_err)?;
        let mut ht = txn.open_table(redb::TableDefinition::<&str, &str>::new("hash_index"))
            .map_err(db_err)?;
        ft.insert(path, meta.as_slice()).map_err(db_err)?;
        ht.insert(hash, path).map_err(db_err)?;
    }
    txn.commit().map_err(db_err)?;
    Ok(())
}

/// Relies on `redb::Table::remove` inside one write transaction:
/// on commit neither table maps the removed keys; an aborted
/// transaction leaves the database unchanged.
#[verifier::external_body]
fn db_remove_pair(db: &mut redb::Database, path: &str, hash: &str) -> (r: Result<(), StreamError>)
    ensures
        r is Ok ==> files_table_of(*final(db)) == files_table_of(*old(db)).remove(path@)
            && hash_table_of(*final(db)) == hash_table_of(*old(db)).remove(hash@),
        r is Err ==> files_table_of(*final(db)) == files_table_of(*old(db)) && hash_table_of(
            *final(db),
        ) == hash_table_of(*old(db)),
        r matches Err(e) ==> e matches StreamError::Database(_),
{
    let txn = db.begin_write().map_err(db_err)?;
    {
        let mut ft = txn.open_table(redb::TableDefinition::<&str, &[u8]>::new("files")).map_err(db_err)?;
        let mut ht = txn.open_table(redb::TableDefinition::<&str, &str>::new("hash_index"))
            .map_err(db_err)?;
        ft.remove(path).map_err(db_err)?;
        ht.remove(hash).map_err(db_err)?;
    }
    txn.commit().map_err(db_err)?;
    Ok(())
}

/// Relies on `redb::ReadOnlyTable::get` on the `files` table: `Some`
/// exactly when the key is present, with the stored bytes.
#[verifier::external_body]
fn db_files_get(db: &redb::Database, path: &str) -> (r: Result<Option<Vec<u8>>, StreamError>)
    ensures
        r matches Ok(o) ==> (match o {
            Some(v) => files_table_of(*db).contains_key(path@) && v@ == files_table_of(*db)[path@],
            None => !files_table_of(*db).contains_key(path@),
        }),
        r matches Err(e) ==> e matches StreamError::Database(_),
{
    let txn = db.begin_read().map_err(db_err)?;
    let t = txn.open_table(redb::TableDefinition::<&str, &[u8]>::new("files")).map_err(db_err)?;
    let got = t.get(path).map_err(db_err)?;
    Ok(got.map(|g| g.value().to_vec()))
}

/// Relies on `redb::ReadOnlyTable::get` on the `hash_index` table:
/// `Some` exactly when the key is present, with the stored path.
#[verifier::external_body]
fn db_hash_get(db: &redb::Database, hash: &str) -> (r: Result<Option<String>, StreamError>)
    ensures
        r matches Ok(o) ==> (match o {
            Some(p) => hash_table_of(*db).contains_key(hash@) && p@ == hash_table_of(*db)[hash@],
            None => !hash_table_of(*db).contains_key(hash@),
        }),
        r matches Err(e) ==> e matches StreamError::Database(_),
{
    let txn = db.begin_read().map_err(db_err)?;
    let t = txn.open_table(redb::TableDefinition::<&str, &str>::new("hash_index")).map_err(db_err)?;
    let got = t.get(hash).map_err(db_err)?;
    Ok(got.map(|g| g.value().to_string()))
}

/// Relies on `redb::ReadableTable::iter` on the `files` table: the
/// iteration visits every stored entry exactly once.
#[verifier::external_body]
fn db_files_list(db: &redb::Database) -> (r: Result<Vec<(String, Vec<u8>)>, StreamError>)
    ensures
        r matches Ok(v) ==> {
            &&& files_table_of(*db).dom().finite()
            &&& v@.len() == files_table_of(*db).len()
            &&& forall|i: int|
                0 <= i < v@.len() ==> files_table_of(*db).contains_key(#[trigger] v@[i].0@)
                    && files_table_of(*db)[v@[i].0@] == v@[i].1@
            &&& forall|i: int, j: int| 0 <= i < j < v@.len() ==> v@[i].0@ != v@[j].0@
        },
        r matches Err(e) ==> e matches StreamError::Database(_),
{
    let txn = db.begin_read().map_err(db_err)?;
    let t = txn.open_table(redb::TableDefinition::<&str, &[u8]>::new("files")).map_err(db_err)?;
    let mut out = Vec::new();
    for entry in t.iter().map_err(db_err)? {
        let (k, v) = entry.map_err(db_err)?;
        out.push((k.value().to_string(), v.value().to_vec()));
    }
    Ok(out)
}

/// Relies on `redb::Database::compact`: reclaims space without
/// changing what either table holds.
#[verifier::external_body]
fn db_compact_raw(db: &mut redb::Database) -> (r: Result<bool, StreamError>)
    ensures
        files_table_of(*final(db)) == files_table_of(*old(db)),
        hash_table_of(*final(db)) == hash_table_of(*old(db)),
        r matches Err(e) ==> e matches StreamError::Database(_),
{
    db.compact().map_err(db_err)
}

/// The durable index: two tables in one transactional store.
pub struct FileIndex {
    db: redb::Database,
}

/// How one upsert changes the `files` table.
pub open spec fn upsert_files(files: Map<Seq<char>, Seq<u8>>, m: MetaView) -> Map<
    Seq<char>,
    Seq<u8>,
> {
    files.insert(m.path, encode_meta(m))
}

/// How one upsert changes the `hash_index` table.
pub open spec fn upsert_hashes(hashes: Map<Seq<char>, Seq<char>>, m: MetaView) -> Map<
    Seq<char>,
    Seq<char>,
> {
    hashes.insert(m.hash, m.path)
}

/// Some key of the `files` table decodes to this record.
pub open spec fn listed_record(files: Map<Seq<char>, Seq<u8>>, mv: MetaView) -> bool {
    exists|k: Seq<char>| files.contains_key(k) && decode_meta(#[trigger] files[k]) == Some(mv)
}

/// What a lookup by path returns, over the `files` table.
pub open spec fn lookup_path(files: Map<Seq<char>, Seq<u8>>, p: Seq<char>) -> Option<MetaView> {
    if files.contains_key(p) {
        decode_meta(files[p])
    } else {
        None
    }
}

/// What a lookup by hash returns: the reverse index names the owning
/// path, and the record comes from the `files` table.
pub open spec fn lookup_hash(
    files: Map<Seq<char>, Seq<u8>>,
    hashes: Map<Seq<char>, Seq<char>>,
    h: Seq<char>,
) -> Option<MetaView> {
    if hashes.contains_key(h) {
        lookup_path(files, hashes[h])
    } else {
        None
    }
}

impl FileIndex {
    /// The contents of the `files` table.
    pub closed spec fn files(self) -> Map<Seq<char>, Seq<u8>> {
        files_table_of(self.db)
    }

    /// The contents of the `hash_index` table.
    pub closed spec fn hashes(self) -> Map<Seq<char>, Seq<char>> {
        hash_table_of(self.db)
    }

    /// Opens or creates the index at `path` and makes sure both
    /// tables exist. Idempotent across repeated calls.
    pub fn open(path: &str) -> (r: Result<FileIndex, StreamError>)
        ensures
            r matches Err(e) ==> e matches StreamError::Database(_),
    {
        let db = db_open_raw(path)?;
        Ok(FileIndex { db })
    }

    /// Inserts or overwrites the record at its path, and points the
    /// hash index at that path, atomically. A prior record at the
    /// same path is overwritten; if its hash differed, the old
    /// hash's reverse entry is left in place (a known gap of the
    /// reverse index).
    pub fn upsert_file(&mut self, metadata: &FileMetadata) -> (r: Result<(), StreamError>)
        ensures
            r is Ok ==> final(self).files() == upsert_files(old(self).files(), metadata@)
                && final(self).hashes() == upsert_hashes(old(self).hashes(), metadata@),
            r is Err ==> final(self).files() == old(self).files() && final(self).hashes() == old(self).hashes(),
            r matches Err(e) ==> e matches StreamError::Database(_),
    {
        let encoded = encode_meta_bytes(metadata);
        db_put_pair(&mut self.db, metadata.path.as_str(), &encoded, metadata.hash.0.as_str())
    }

    /// Looks a record up by path: exactly the `files` entry, decoded;
    /// `None` when the path is absent; a malformed stored record is
    /// a database error, never a crash.
    pub fn get_by_path(&self, path: &str) -> (r: Result<Option<FileMetadata>, StreamError>)
        ensures
            r matches Ok(o) ==> (match o {
                Some(m) => lookup_path(self.files(), path@) == Some(m@),
                None => !self.files().contains_key(path@),
            }),
            r is Ok && self.files().contains_key(path@) ==> decode_meta(self.files()[path@])
                is Some,
            r matches Err(e) ==> e matches StreamError::Database(_),
    {
        match db_files_get(&self.db, path)? {
            None => Ok(None),
            Some(bytes) => match decode_meta_bytes(&bytes) {
                Some(m) => Ok(Some(m)),
                None => Err(StreamError::Database(String::from_str("malformed index record"))),
            },
        }
    }

    /// Looks a record up by content hash through the reverse index;
    /// `None` when either lookup misses.
    pub fn get_by_hash(&self, hash: &MediaHash) -> (r: Result<Option<FileMetadata>, StreamError>)
        ensures
            r matches Ok(o) ==> (match o {
                Some(m) => lookup_hash(self.files(), self.hashes(), hash@) == Some(m@),
                None => lookup_hash(self.files(), self.hashes(), hash@) is None,
            }),
            r matches Err(e) ==> e matches StreamError::Database(_),
    {
        match db_hash_get(&self.db, hash.0.as_str())? {
            None => Ok(None),
            Some(path) => match db_files_get(&self.db, path.as_str())? {
                None => Ok(None),
                Some(bytes) => match decode_meta_bytes(&bytes) {
                    Some(m) => Ok(Some(m)),
                    None => Err(
                        StreamError::Database(String::from_str("malformed index record")),
                    ),
                },
            },
        }
    }

    /// Removes the record at `path` and its hash's reverse entry,
    /// atomically; a no-op if the path is absent.
    pub fn remove_file(&mut self, path: &str) -> (r: Result<(), StreamError>)
        ensures
            r is Ok && !old(self).files().contains_key(path@) ==> final(self).files() == old(self).files() && final(self).hashes() == old(self).hashes(),
            (r is Ok && lookup_path(old(self).files(), path@) is Some) ==> final(self).files()
                == old(self).files().remove(path@) && final(self).hashes() == old(
                self).hashes().remove(lookup_path(old(self).files(), path@)->Some_0.hash),
            old(self).files().contains_key(path@) && decode_meta(old(self).files()[path@]) is None
                ==> r is Err,
            r is Err ==> final(self).files() == old(self).files() && final(self).hashes() == old(self).hashes(),
            r matches Err(e) ==> e matches StreamError::Database(_),
    {
        match db_files_get(&self.db, path)? {
            None => Ok(()),
            Some(bytes) => match decode_meta_bytes(&bytes) {
                None => Err(StreamError::Database(String::from_str("malformed index record"))),
                Some(m) => db_remove_pair(&mut self.db, path, m.hash.0.as_str()),
            },
        }
    }

    /// Lists up to 10,000 records, in the store's own iteration
    /// order. Complete whenever the table holds no more than that.
    pub fn list_all(&self) -> (r: Result<Vec<FileMetadata>, StreamError>)
        ensures
            r matches Ok(v) ==> {
                &&& v@.len() <= 10000
                &&& forall|i: int| 0 <= i < v@.len() ==> listed_record(self.files(), #[trigger] v@[i]@)
                &&& self.files().len() <= 10000 ==> v@.len() == self.files().len()
            },
            r matches Err(e) ==> e matches StreamError::Database(_),
    {
        let entries = db_files_list(&self.db)?;
        let mut out: Vec<FileMetadata> = Vec::new();
        let mut i: usize = 0;
        while i < entries.len() && i < 10000
            invariant
                i <= entries@.len(),
                out@.len() == i <= 10000,
                entries@.len() == self.files().len(),
                forall|t: int|
                    0 <= t < entries@.len() ==> self.files().contains_key(
                        #[trigger] entries@[t].0@,
                    ) && self.files()[entries@[t].0@] == entries@[t].1@,
                forall|t: int| 0 <= t < i ==> listed_record(self.files(), #[trigger] out@[t]@),
            decreases entries@.len() - i,
        {
            match decode_meta_bytes(&entries[i].1) {
                Some(m) => {
                    proof {
                        let k = entries@[i as int].0@;
                        assert(self.files().contains_key(k) && decode_meta(self.files()[k])
                            == Some(m@));
                    }
                    out.push(m);
                },
                None => {
                    return Err(
                        StreamError::Database(String::from_str("malformed index record")),
                    );
                },
            }
            i = i + 1;
        }
        Ok(out)
    }

    /// Reclaims free space; the contents of both tables are kept.
    pub fn compact(&mut self) -> (r: Result<bool, StreamError>)
        ensures
            final(self).files() == old(self).files(),
            final(self).hashes() == old(self).hashes(),
            r matches Err(e) ==> e matches StreamError::Database(_),
    {
        db_compact_raw(&mut self.db)
    }
}

// ============================================================
// Laws of the dual index
// ============================================================

/// After an upsert of `m`, looking `m.path` up in the `files` table
/// returns `m`, and looking `m.hash` up through the reverse index
/// returns `m` as well.
pub proof fn lemma_upsert_then_lookup(
    files: Map<Seq<char>, Seq<u8>>,
    hashes: Map<Seq<char>, Seq<char>>,
    m: MetaView,
)
    requires
        crate::types::meta_wf(m),
    ensures
        lookup_path(upsert_files(files, m), m.path) == Some(m),
        lookup_hash(upsert_files(files, m), upsert_hashes(hashes, m), m.hash) == Some(m),
{
    crate::types::lemma_meta_round_trip(m);
}

/// After a removal of the record at `p`, neither a lookup by `p` nor
/// a lookup by the record's prior hash finds anything.
pub proof fn lemma_remove_then_lookup(
    files: Map<Seq<char>, Seq<u8>>,
    hashes: Map<Seq<char>, Seq<char>>,
    p: Seq<char>,
    m: MetaView,
)
    requires
        lookup_path(files, p) == Some(m),
    ensures
        lookup_path(files.remove(p), p) is None,
        lookup_hash(files.remove(p), hashes.remove(m.hash), m.hash) is None,
{
}

} // verus!
