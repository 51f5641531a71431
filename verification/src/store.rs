//! The relational store that an archive lives in, with a ghost model of its
//! three tables.
//!
//! The store itself (an embedded SQL engine) is an outside collaborator. The
//! library reaches it only through the trusted wrappers below; every wrapper
//! states over the ghost model what the engine's documented behaviour is.
//! The model of a store is exactly what its tables hold: `items` and
//! `contents` ordered by their `id` column, `slices` (the `itemcontent`
//! table) ordered by its own rowid — which, on the fresh stores this crate
//! writes to, is insertion order. A table that is absent from the underlying
//! file is modelled as empty. The connection owns the store exclusively:
//! nothing else writes the database while it is open, so the model is fixed
//! between the mutations below.

use vstd::prelude::*;
use std::io::Read;
use std::io::Write;

verus! {

/// The relational-store connection that holds an archive.
#[verifier::external_type_specification]
#[verifier::external_body]
pub struct ExConnection(rusqlite::Connection);

/// Model of one `item` row: a node of the directory tree.
pub struct ItemRow {
    /// Unique, monotonically assigned identifier.
    pub id: int,
    /// The id of the containing directory item, or 0 for a root item.
    pub parent: int,
    /// One of the three item kinds.
    pub kind: int,
    /// The leaf name of the item.
    pub name: Seq<char>,
}

/// Model of one `content` row: the stored (compressed) bytes of a bundle.
pub struct ContentRow {
    /// Unique, monotonically assigned identifier.
    pub id: int,
    /// The stored blob bytes.
    pub bytes: Seq<u8>,
}

/// Model of one `itemcontent` row: maps the byte range
/// `[itempos, itempos + size)` of an item to the range
/// `[contentpos, contentpos + size)` of a decompressed bundle.
pub struct SliceRow {
    pub item: int,
    pub itempos: int,
    pub content: int,
    pub contentpos: int,
    pub size: int,
}

/// Model of the three tables of an archive store.
pub struct StoreModel {
    pub items: Seq<ItemRow>,
    pub contents: Seq<ContentRow>,
    pub slices: Seq<SliceRow>,
}

/// Item ids are exactly 1, 2, 3, ... in row order, as the engine assigns
/// them in a store built from empty.
pub open spec fn items_sequential(m: StoreModel) -> bool {
    forall|k: int| 0 <= k < m.items.len() ==> (#[trigger] m.items[k]).id == k + 1
}

/// Content ids are exactly 1, 2, 3, ... in row order.
pub open spec fn contents_sequential(m: StoreModel) -> bool {
    forall|k: int| 0 <= k < m.contents.len() ==> (#[trigger] m.contents[k]).id == k + 1
}

/// The stored bytes of the content row with the given id, if there is one.
pub open spec fn content_bytes_of(m: StoreModel, id: int) -> Option<Seq<u8>> {
    if exists|k: int| 0 <= k < m.contents.len() && (#[trigger] m.contents[k]).id == id {
        let k = choose|k: int| 0 <= k < m.contents.len() && (#[trigger] m.contents[k]).id == id;
        Some(m.contents[k].bytes)
    } else {
        None
    }
}

/// `Entry` represents a row from the `item` table.
#[derive(Clone, Debug)]
pub struct Entry {
    pub id: i64,
    pub parent: i64,
    pub kind: i8,
    pub name: String,
}

impl View for Entry {
    type V = ItemRow;

    open spec fn view(&self) -> ItemRow {
        ItemRow {
            id: self.id as int,
            parent: self.parent as int,
            kind: self.kind as int,
            name: self.name@,
        }
    }
}

/// One row of the `itemcontent` table.
#[derive(Clone, Copy, Debug)]
pub struct SliceInfo {
    pub item: i64,
    pub itempos: i64,
    pub content: i64,
    pub contentpos: i64,
    pub size: i64,
}

impl View for SliceInfo {
    type V = SliceRow;

    open spec fn view(&self) -> SliceRow {
        SliceRow {
            item: self.item as int,
            itempos: self.itempos as int,
            content: self.content as int,
            contentpos: self.contentpos as int,
            size: self.size as int,
        }
    }
}

/// A connection to an archive store, together with the ghost model of its
/// tables. All access to the store engine goes through the trusted methods
/// of this type.
pub struct Store {
    conn: rusqlite::Connection,
    tables: Ghost<StoreModel>,
    fresh: Ghost<bool>,
}

impl View for Store {
    type V = StoreModel;

    closed spec fn view(&self) -> StoreModel {
        self.tables@
    }
}

/// Relies on rusqlite `Connection::open_in_memory` and
/// `Connection::execute_batch`: a fresh in-memory database in which the
/// three archive tables are created, all empty. `Store::create` pairs the
/// connection with the empty model.
#[verifier::external_body]
fn open_memory_conn() -> (r: Result<rusqlite::Connection, crate::Error>)
{
    let conn = match rusqlite::Connection::open_in_memory() {
        Ok(c) => c,
        Err(e) => return Err(crate::Error::SQLError(e.to_string())),
    };
    let ddl = "CREATE TABLE IF NOT EXISTS item (id INTEGER PRIMARY KEY, parent INTEGER, kind INTEGER, name TEXT NOT NULL); CREATE TABLE IF NOT EXISTS content (id INTEGER PRIMARY KEY, value BLOB); CREATE TABLE IF NOT EXISTS itemcontent (id INTEGER PRIMARY KEY, item INTEGER, itempos INTEGER, content INTEGER, contentpos INTEGER, size INTEGER)";
    match conn.execute_batch(ddl) {
        Ok(()) => Ok(conn),
        Err(e) => Err(crate::Error::SQLError(e.to_string())),
    }
}

/// Relies on rusqlite `Connection::open`: opens the database file at
/// `path`, creating an empty file if there is none. `Store::open` pairs the
/// connection with its (unknown) model.
#[verifier::external_body]
fn open_file_conn(path: &str) -> (r: Result<rusqlite::Connection, crate::Error>)
{
    match rusqlite::Connection::open(std::path::Path::new(path)) {
        Ok(conn) => Ok(conn),
        Err(e) => Err(crate::Error::SQLError(e.to_string())),
    }
}

impl Store {
    /// A fresh store: an in-memory database holding the three archive
    /// tables, all empty. (The pairing of the new connection with the empty
    /// model rests on `open_memory_conn`.)
    pub fn create() -> (r: Result<Store, crate::Error>)
        ensures
            r matches Ok(s) ==> s@ == (StoreModel {
                items: Seq::<ItemRow>::empty(),
                contents: Seq::<ContentRow>::empty(),
                slices: Seq::<SliceRow>::empty(),
            }) && s.is_fresh(),
    {
        let conn = match open_memory_conn() {
            Ok(c) => c,
            Err(e) => {
                return Err(e);
            },
        };
        Ok(
            Store {
                conn,
                tables: Ghost(
                    StoreModel {
                        items: Seq::<ItemRow>::empty(),
                        contents: Seq::<ContentRow>::empty(),
                        slices: Seq::<SliceRow>::empty(),
                    },
                ),
                fresh: Ghost(true),
            },
        )
    }

    /// Opens the store in the database file at `path`. Nothing is known of
    /// the model: it is whatever the file's tables hold, and the query
    /// methods below report it consistently.
    pub fn open(path: &str) -> (r: Result<Store, crate::Error>)
    {
        let conn = match open_file_conn(path) {
            Ok(c) => c,
            Err(e) => {
                return Err(e);
            },
        };
        let ghost m: StoreModel = arbitrary();
        Ok(Store { conn, tables: Ghost(m), fresh: Ghost(false) })
    }

    /// Whether this store came from `Store::create`: fresh and empty, and
    /// only ever changed through the methods below, so the rowids of all
    /// three tables are exactly 1, 2, 3, ... in insertion order. A store
    /// opened from a file makes no such promise.
    pub closed spec fn is_fresh(&self) -> bool {
        self.fresh@
    }

    /// Relies on rusqlite `Connection::execute` (an INSERT is atomic: on
    /// failure the table is unchanged) and `Connection::last_insert_rowid`:
    /// in a store whose item ids are 1..n the engine assigns the new row the
    /// id n + 1 and returns it.
    #[verifier::external_body]
    pub(crate) fn insert_item(&mut self, parent: i64, kind: i8, name: &str) -> (r: Result<
        i64,
        crate::Error,
    >)
        requires
            items_sequential(old(self)@),
            old(self)@.items.len() + 1 <= i64::MAX,
        ensures
            final(self).is_fresh() == old(self).is_fresh(),
            r matches Ok(id) ==> {
                &&& id as int == old(self)@.items.len() + 1
                &&& final(self)@ == (StoreModel {
                    items: old(self)@.items.push(
                        ItemRow {
                            id: id as int,
                            parent: parent as int,
                            kind: kind as int,
                            name: name@,
                        },
                    ),
                    ..old(self)@
                })
            },
            r is Err ==> final(self)@ == old(self)@,
    {
        let res = self.conn.execute(
            "INSERT INTO item (parent, kind, name) VALUES (?1, ?2, ?3)",
            (parent, kind, name),
        );
        match res {
            Ok(_) => Ok(self.conn.last_insert_rowid()),
            Err(e) => Err(crate::Error::SQLError(e.to_string())),
        }
    }

    /// Relies on rusqlite `Connection::execute` (INSERT of a zero blob,
    /// atomic per statement), `Connection::last_insert_rowid`,
    /// `Connection::blob_open` and the blob's `std::io::Write`
    /// implementation: in a store whose content ids are 1..n, a new content
    /// row with id n + 1 is created holding exactly `data.len()` bytes; the
    /// returned count says how many of them were overwritten with `data`
    /// (the rest remain zero). If the initial INSERT fails the store is
    /// unchanged; after it succeeds, any later failure leaves the row with
    /// unspecified bytes of that length.
    #[verifier::external_body]
    pub(crate) fn write_content(&mut self, data: &Vec<u8>) -> (r: Result<(i64, usize), crate::Error>)
        requires
            contents_sequential(old(self)@),
            old(self)@.contents.len() + 1 <= i64::MAX,
            data@.len() <= 0x7fffffff,
        ensures
            final(self).is_fresh() == old(self).is_fresh(),
            final(self)@.items == old(self)@.items,
            final(self)@.slices == old(self)@.slices,
            r matches Ok(p) ==> {
                &&& p.0 as int == old(self)@.contents.len() + 1
                &&& p.1 <= data@.len()
                &&& final(self)@.contents.len() == old(self)@.contents.len() + 1
                &&& forall|k: int|
                    0 <= k < old(self)@.contents.len() ==> final(self)@.contents[k] == old(
                        self,
                    )@.contents[k]
                &&& final(self)@.contents.last().id == p.0 as int
                &&& final(self)@.contents.last().bytes.len() == data@.len()
                &&& p.1 == data@.len() ==> final(self)@.contents.last().bytes == data@
            },
            r is Err ==> final(self)@.contents == old(self)@.contents || {
                &&& final(self)@.contents.len() == old(self)@.contents.len() + 1
                &&& forall|k: int|
                    0 <= k < old(self)@.contents.len() ==> final(self)@.contents[k] == old(
                        self,
                    )@.contents[k]
                &&& final(self)@.contents.last().id == old(self)@.contents.len() as int + 1
                &&& final(self)@.contents.last().bytes.len() == data@.len()
            },
    {
        let sql = "INSERT INTO content (value) VALUES (ZEROBLOB(?1))";
        let res = self.conn.execute(sql, [data.len() as i64]);
        res.map_err(|e| crate::Error::SQLError(e.to_string()))?;
        let content_id = self.conn.last_insert_rowid();
        let blob = self.conn.blob_open("main", "content", "value", content_id, false);
        let mut blob = blob.map_err(|e| crate::Error::SQLError(e.to_string()))?;
        let n = blob.write(data).map_err(|e| crate::Error::IOError(e.to_string()))?;
        Ok((content_id, n))
    }

    /// Relies on rusqlite `Connection::execute` (an INSERT is atomic: on
    /// failure the table is unchanged): appends one row to `itemcontent`.
    /// The appended-at-the-end model relies on the engine assigning the new
    /// rowid as one more than the largest in use, so the `requires` admit
    /// only a fresh store (rowids exactly 1..n) with room below the largest
    /// rowid, mirroring the id clauses of `insert_item` and `write_content`.
    #[verifier::external_body]
    pub(crate) fn insert_slice(
        &mut self,
        item: i64,
        itempos: u64,
        content: i64,
        contentpos: u64,
        size: u64,
    ) -> (r: Result<(), crate::Error>)
        requires
            old(self).is_fresh(),
            old(self)@.slices.len() + 1 <= i64::MAX,
            itempos <= i64::MAX,
            contentpos <= i64::MAX,
            size <= i64::MAX,
        ensures
            final(self).is_fresh() == old(self).is_fresh(),
            r is Ok ==> final(self)@ == (StoreModel {
                slices: old(self)@.slices.push(
                    SliceRow {
                        item: item as int,
                        itempos: itempos as int,
                        content: content as int,
                        contentpos: contentpos as int,
                        size: size as int,
                    },
                ),
                ..old(self)@
            }),
            r is Err ==> final(self)@ == old(self)@,
    {
        let res = self.conn.execute(
            "INSERT INTO itemcontent (item, itempos, content, contentpos, size) VALUES (?1, ?2, ?3, ?4, ?5)",
            (item, itempos as i64, content, contentpos as i64, size as i64),
        );
        match res {
            Ok(_) => Ok(()),
            Err(e) => Err(crate::Error::SQLError(e.to_string())),
        }
    }

    /// Relies on rusqlite `Connection::backup`: writes a snapshot of the
    /// main database to the file at `path`.
    #[verifier::external_body]
    pub(crate) fn backup_to(&self, path: &str) -> (r: Result<(), crate::Error>)
    {
        match self.conn.backup("main", std::path::Path::new(path), None) {
            Ok(()) => Ok(()),
            Err(e) => Err(crate::Error::SQLError(e.to_string())),
        }
    }

    /// Whether the `item` table holds at least one row: the probe half of
    /// the archive identifier, stated against the model.
    pub fn has_items(&self) -> (r: Result<bool, crate::Error>)
        ensures
            r matches Ok(b) ==> b == (self@.items.len() > 0),
    {
        self.probe_items()
    }

    /// Relies on rusqlite `Connection::prepare` and `Statement::exists`:
    /// reports whether the `item` table exists and holds at least one row.
    /// A store whose `item` table is missing is modelled as having no items,
    /// so the report is exactly whether the model has an item.
    #[verifier::external_body]
    fn probe_items(&self) -> (r: Result<bool, crate::Error>)
        ensures
            r matches Ok(b) ==> b == (self@.items.len() > 0),
    {
        match self.conn.prepare("SELECT * FROM item") {
            Ok(mut stmt) => match stmt.exists([]) {
                Ok(found) => Ok(found),
                Err(e) => Err(crate::Error::SQLError(e.to_string())),
            },
            Err(_) => Ok(false),
        }
    }

    /// Relies on rusqlite `Connection::prepare`, `Statement::query_map` and
    /// `Row::get`: returns every row of the `item` table ordered by id. A
    /// row whose columns do not fit the field types makes the call fail.
    #[verifier::external_body]
    pub(crate) fn load_items(&self) -> (r: Result<Vec<Entry>, crate::Error>)
        ensures
            r matches Ok(v) ==> v@.map_values(|e: Entry| e@) == self@.items,
    {
        let res: rusqlite::Result<Vec<Entry>> = (|| {
            let mut stmt = self.conn.prepare("SELECT id, parent, kind, name FROM item ORDER BY id")?;
            let rows = stmt.query_map([], |row| {
                Ok(Entry { id: row.get(0)?, parent: row.get(1)?, kind: row.get(2)?, name: row.get(3)? })
            })?;
            rows.collect()
        })();
        res.map_err(|e| crate::Error::SQLError(e.to_string()))
    }

    /// Relies on rusqlite `Connection::prepare`, `Statement::query_map` and
    /// `Row::get`: returns every row of the `itemcontent` table in insertion
    /// order (ordered by the table's own rowid). A row whose columns do not
    /// fit the field types makes the call fail.
    #[verifier::external_body]
    pub(crate) fn load_slices(&self) -> (r: Result<Vec<SliceInfo>, crate::Error>)
        ensures
            r matches Ok(v) ==> v@.map_values(|s: SliceInfo| s@) == self@.slices,
    {
        let sql = "SELECT item, itempos, content, contentpos, size FROM itemcontent ORDER BY id";
        let res: rusqlite::Result<Vec<SliceInfo>> = (|| {
            let mut stmt = self.conn.prepare(sql)?;
            let rows = stmt.query_map([], |row| {
                let (item, itempos) = (row.get(0)?, row.get(1)?);
                let (content, contentpos, size) = (row.get(2)?, row.get(3)?, row.get(4)?);
                Ok(SliceInfo { item, itempos, content, contentpos, size })
            })?;
            rows.collect()
        })();
        res.map_err(|e| crate::Error::SQLError(e.to_string()))
    }

    /// Relies on rusqlite `Connection::blob_open` (read-only) and the blob's
    /// `std::io::Read` implementation: returns the stored bytes of the
    /// content row with the given id; fails if there is none.
    #[verifier::external_body]
    pub(crate) fn read_content(&self, id: i64) -> (r: Result<Vec<u8>, crate::Error>)
        ensures
            r matches Ok(b) ==> content_bytes_of(self@, id as int) == Some(b@),
    {
        let mut blob = match self.conn.blob_open("main", "content", "value", id, true) {
            Ok(b) => b,
            Err(e) => return Err(crate::Error::SQLError(e.to_string())),
        };
        let mut buffer: Vec<u8> = Vec::new();
        match blob.read_to_end(&mut buffer) {
            Ok(_) => Ok(buffer),
            Err(e) => Err(crate::Error::IOError(e.to_string())),
        }
    }
}

} // verus!
