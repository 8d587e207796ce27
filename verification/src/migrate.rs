//! Loading tables into PostgreSQL.
use crate::bytes::sum64;
use crate::catalog::{column_views, count16, in_byte_order};
use crate::cli::Args;
use crate::extract::copy_slots;
use crate::ods::{Image, OdsError, OdsReader};
use crate::schema::create_table_sql_from;
use crate::text::{lowercase, quote, quoted, texts, to_lowercase};
use vstd::prelude::*;
use vstd::string::StringExecFns;

verus! {

/// What was loaded of a table, and how long it took.
#[derive(Clone, Copy, PartialEq, Eq, Debug, Structural)]
pub struct MigrateStats {
    pub rows: u64,
    /// Bytes that were written to the stream.
    pub bytes: u64,
    /// The time for decoding.
    pub fdb_ns: u64,
    /// The time for writing.
    pub pg_ns: u64,
}

impl MigrateStats {
    /// What was loaded, where `total_ns` went by until the stream was written, `written_ns`
    /// of it in writing, and `finish_ns` after that.
    pub fn measured(
        rows: u64,
        bytes: u64,
        total_ns: u64,
        written_ns: u64,
        finish_ns: u64,
    ) -> (r: Self)
        ensures
            r == (MigrateStats {
                rows,
                bytes,
                fdb_ns: if written_ns > total_ns {
                    0
                } else {
                    (total_ns - written_ns) as u64
                },
                pg_ns: sum64(written_ns, finish_ns),
            }),
    {
        MigrateStats {
            rows,
            bytes,
            fdb_ns: total_ns.saturating_sub(written_ns),
            pg_ns: written_ns.saturating_add(finish_ns),
        }
    }
}

// ── One table ────────────────────────────────────────────────────────────────

/// What is needed in order to load a table.
pub struct Load {
    pub relation_id: u16,
    pub create_sql: String,
    pub copy_sql: String,
    pub field_order: Vec<(usize, String)>,
    pub n_fields: i16,
}

/// The migration of a table: the statement that drops the old table, if it is to be
/// dropped, and then what is needed to load it, or why it cannot be.
pub struct Migration {
    pub drop_sql: Option<String>,
    pub load: Result<Load, OdsError>,
}

pub open spec fn drop_table_sql(table: Seq<char>) -> Seq<char> {
    "DROP TABLE IF EXISTS "@ + quoted(lowercase(table))
}

pub open spec fn copy_table_sql(table: Seq<char>) -> Seq<char> {
    "COPY "@ + quoted(lowercase(table)) + " FROM STDIN WITH (FORMAT BINARY)"@
}

impl Image {
    /// Whether everything that loading a table needs can be read.
    pub open spec fn loadable(self, table: Seq<char>, unlogged: bool) -> bool {
        match self.create_table(table, unlogged) {
            None => false,
            Some(Err(_)) => true,
            Some(Ok(_)) => {
                &&& self.relation_id(table) is Some
                &&& match self.relation_id(table)->0 {
                    Ok(rid) => self.copy_columns(rid, table) is Some,
                    Err(_) => true,
                }
            },
        }
    }
}

/// Whether `r` is what loading a table needs.
pub open spec fn load_shows(
    img: Image,
    table: Seq<char>,
    unlogged: bool,
    r: Result<Load, OdsError>,
) -> bool {
    match r {
        Err(e) => img.create_table(table, unlogged) == Some(Err::<Seq<char>, OdsError>(e)),
        Ok(x) => {
            &&& img.create_table(table, unlogged) == Some(
                Ok::<Seq<char>, OdsError>(x.create_sql@),
            )
            &&& img.relation_id(table) == Some(Ok::<u16, OdsError>(x.relation_id))
            &&& x.copy_sql@ == copy_table_sql(table)
            &&& img.copy_columns(x.relation_id, table) == Some(
                Ok::<Seq<(usize, Seq<char>)>, OdsError>(column_views(x.field_order@)),
            )
            &&& x.n_fields == count16(x.field_order@.len() as int)
        },
    }
}

/// Reads what loading a table needs.
pub fn plan_load(db: &OdsReader, table: &str, unlogged: bool) -> (r: Result<Load, OdsError>)
    requires
        db.wf(),
        db@.loadable(table@, unlogged),
    ensures
        load_shows(db@, table@, unlogged, r),
{
    let create_sql: String = match create_table_sql_from(db, table, unlogged) {
        Ok(s) => s,
        Err(e) => {
            return Err(e);
        },
    };
    let relation_id: u16 = match db.find_relation_id(table) {
        Ok(rid) => rid,
        Err(e) => {
            return Err(e);
        },
    };
    let (field_order, n_fields): (Vec<(usize, String)>, i16) = match copy_slots(
        db,
        relation_id,
        table,
    ) {
        Ok(x) => x,
        Err(e) => {
            return Err(e);
        },
    };
    let pg_table: String = to_lowercase(table);
    let mut copy_sql: String = String::from_str("COPY ");
    copy_sql.append(quote(pg_table.as_str()).as_str());
    copy_sql.append(" FROM STDIN WITH (FORMAT BINARY)");
    Ok(Load { relation_id, create_sql, copy_sql, field_order, n_fields })
}

/// What the migration of a table does.
pub fn migrate_table(db: &OdsReader, table: &str, drop: bool, unlogged: bool) -> (r: Migration)
    requires
        db.wf(),
        db@.loadable(table@, unlogged),
    ensures
        r.drop_sql is Some <==> drop,
        drop ==> r.drop_sql->0@ == drop_table_sql(table@),
        load_shows(db@, table@, unlogged, r.load),
{
    let drop_sql: Option<String> = if drop {
        let mut s: String = String::from_str("DROP TABLE IF EXISTS ");
        s.append(quote(to_lowercase(table).as_str()).as_str());
        Some(s)
    } else {
        None
    };
    Migration { drop_sql, load: plan_load(db, table, unlogged) }
}

/// What the migration of the table does that the options name.
pub fn migrate(db: &OdsReader, args: &Args) -> (r: Migration)
    requires
        db.wf(),
        args.table is Some,
        db@.loadable(args.table->0@, args.unlogged),
    ensures
        r.drop_sql is Some <==> args.drop,
        args.drop ==> r.drop_sql->0@ == drop_table_sql(args.table->0@),
        load_shows(db@, args.table->0@, args.unlogged, r.load),
{
    match &args.table {
        Some(t) => migrate_table(db, t.as_str(), args.drop, args.unlogged),
        None => Migration { drop_sql: None, load: Err(OdsError::TableNotFound) },
    }
}

// ── Several tables ───────────────────────────────────────────────────────────

/// The sums over several tables. They stop at the greatest number.
#[derive(Clone, Copy, PartialEq, Eq, Debug, Structural)]
pub struct Totals {
    pub rows: u64,
    pub bytes: u64,
    pub fdb_ns: u64,
    pub pg_ns: u64,
    pub ok: usize,
    pub failed: usize,
}

/// The sums over no table.
pub open spec fn no_totals() -> Totals {
    Totals { rows: 0, bytes: 0, fdb_ns: 0, pg_ns: 0, ok: 0, failed: 0 }
}

impl Totals {
    /// The sums with one more table, which was loaded or not.
    pub open spec fn with(self, outcome: Option<MigrateStats>) -> Totals {
        match outcome {
            Some(s) => Totals {
                rows: sum64(self.rows, s.rows),
                bytes: sum64(self.bytes, s.bytes),
                fdb_ns: sum64(self.fdb_ns, s.fdb_ns),
                pg_ns: sum64(self.pg_ns, s.pg_ns),
                ok: (self.ok + 1) as usize,
                failed: self.failed,
            },
            None => Totals { failed: (self.failed + 1) as usize, ..self },
        }
    }
}

/// The sums over the outcomes of several tables.
pub open spec fn totals_of(outcomes: Seq<Option<MigrateStats>>) -> Totals
    decreases outcomes.len(),
{
    if outcomes.len() == 0 {
        no_totals()
    } else {
        totals_of(outcomes.drop_last()).with(outcomes.last())
    }
}

/// A run over several tables, one after the other. A table that cannot be loaded does not
/// end it.
pub struct TableRun {
    tables: Vec<String>,
    at: usize,
    totals: Totals,
    outcomes: Ghost<Seq<Option<MigrateStats>>>,
}

impl TableRun {
    /// The tables of the run.
    pub closed spec fn names(self) -> Seq<Seq<char>> {
        texts(self.tables@)
    }

    /// How the tables turned out so far.
    pub closed spec fn past(self) -> Seq<Option<MigrateStats>> {
        self.outcomes@
    }

    pub closed spec fn wf(self) -> bool {
        &&& self.at <= self.tables@.len()
        &&& self.at == self.outcomes@.len()
        &&& self.totals == totals_of(self.outcomes@)
        &&& self.totals.ok + self.totals.failed == self.at
    }

    /// The next table, if there is one.
    pub fn next(&self) -> (r: Option<&str>)
        requires
            self.wf(),
        ensures
            match r {
                Some(t) => self.past().len() < self.names().len() && t@
                    == self.names()[self.past().len() as int],
                None => self.past().len() == self.names().len(),
            },
    {
        assert(texts(self.tables@).len() == self.tables@.len());
        if self.at < self.tables.len() {
            Some(self.tables[self.at].as_str())
        } else {
            None
        }
    }

    /// Takes note of how the next table turned out. Returns whether the connection has to
    /// be set up again.
    pub fn record(&mut self, outcome: Option<MigrateStats>) -> (reconnect: bool)
        requires
            old(self).wf(),
            old(self).past().len() < old(self).names().len(),
        ensures
            final(self).wf(),
            final(self).names() == old(self).names(),
            final(self).past() == old(self).past().push(outcome),
            reconnect == (outcome is None),
    {
        assert(texts(self.tables@).len() == self.tables@.len());
        assert(self.tables.len() <= usize::MAX);
        match outcome {
            Some(s) => {
                self.totals.rows = self.totals.rows.saturating_add(s.rows);
                self.totals.bytes = self.totals.bytes.saturating_add(s.bytes);
                self.totals.fdb_ns = self.totals.fdb_ns.saturating_add(s.fdb_ns);
                self.totals.pg_ns = self.totals.pg_ns.saturating_add(s.pg_ns);
                self.totals.ok = self.totals.ok + 1;
            },
            None => {
                self.totals.failed = self.totals.failed + 1;
            },
        }
        self.at = self.at + 1;
        let ghost before = self.outcomes@;
        self.outcomes = Ghost(before.push(outcome));
        assert(before.push(outcome).drop_last() =~= before);
        outcome.is_none()
    }

    /// The sums so far.
    pub fn totals(&self) -> (r: Totals)
        requires
            self.wf(),
        ensures
            r == totals_of(self.past()),
            r.ok + r.failed == self.past().len(),
    {
        self.totals
    }
}

/// Starts a run over the named tables.
pub fn migrate_list(tables: Vec<String>) -> (r: TableRun)
    ensures
        r.wf(),
        r.names() == texts(tables@),
        r.past().len() == 0,
{
    TableRun {
        tables,
        at: 0,
        totals: Totals { rows: 0, bytes: 0, fdb_ns: 0, pg_ns: 0, ok: 0, failed: 0 },
        outcomes: Ghost(Seq::empty()),
    }
}

/// Starts a run over all tables of a database, if it has any.
pub fn migrate_all(db: &OdsReader) -> (r: Option<TableRun>)
    requires
        db.wf(),
        db@.tables() is Some,
    ensures
        match r {
            Some(run) => {
                &&& run.wf()
                &&& run.names().len() > 0
                &&& run.past().len() == 0
                &&& in_byte_order(run.names())
                &&& run.names().to_multiset() == db@.tables()->0.to_multiset()
            },
            None => db@.tables()->0.len() == 0,
        },
{
    let tables: Vec<String> = db.list_tables();
    assert(texts(tables@).len() == tables@.len());
    if tables.len() == 0 {
        proof {
            texts(tables@).to_multiset_ensures();
            db@.tables()->0.to_multiset_ensures();
        }
        return None;
    }
    Some(migrate_list(tables))
}

/// Every table of a run is counted once: as loaded or as failed.
pub proof fn law_every_table_is_counted(outcomes: Seq<Option<MigrateStats>>)
    requires
        outcomes.len() <= usize::MAX,
    ensures
        totals_of(outcomes).ok + totals_of(outcomes).failed == outcomes.len(),
        totals_of(outcomes).failed == 0 <==> forall|i: int|
            0 <= i < outcomes.len() ==> (#[trigger] outcomes[i]) is Some,
    decreases outcomes.len(),
{
    if outcomes.len() > 0 {
        let front = outcomes.drop_last();
        law_every_table_is_counted(front);
        assert(outcomes[outcomes.len() - 1] == outcomes.last());
        assert(forall|i: int| 0 <= i < front.len() ==> front[i] == outcomes[i]);
    }
}

} // verus!
