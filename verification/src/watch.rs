//! Watching a database: cycle after cycle, table after table.
use crate::bytes::{get_u32, sum32, sum64};
use crate::cdc::{page_gen, TableCache};
use crate::names::{distinct_names, lookup, position, put, take};
use crate::ods::{Image, OdsError, OdsReader};
use crate::ready::is_syncable;
use crate::sink::{reconnected, DeltaSink, Offer, SinkError};
use crate::snapshot::{
    are_walks, load_snapshots, parse_snapshot, save_snapshots, saved_tables, snapshot_bytes,
    tables_show,
};
use crate::sync::{law_cycle_keeps, sync_shows, sync_table, syncable, DeltaStats, SyncError};
use crate::text::texts;
use std::collections::HashMap;
use vstd::prelude::*;

verus! {

// ── What is kept in the state file ───────────────────────────────────────────

/// What is known of a table.
pub struct TableState {
    /// The transaction up to which the table is applied.
    pub last_txn: u64,
    /// The columns of its key.
    pub pk_fields: Vec<String>,
}

/// What is known of a database. No table is listed twice.
pub struct CdcState {
    pub version: u32,
    /// The transaction up to which the database is applied.
    pub last_txn: u64,
    pub tables: Vec<(String, TableState)>,
    /// The generations of the pages of each table.
    pub page_gens: Vec<(String, HashMap<u32, u32>)>,
}

impl CdcState {
    pub open spec fn wf(self) -> bool {
        distinct_names(self.tables@) && distinct_names(self.page_gens@)
    }

    /// What the state file held, or a state in which nothing is known where it is missing
    /// or cannot be read.
    pub fn loaded(found: Option<CdcState>) -> (r: CdcState)
        requires
            found is Some ==> found->0.wf(),
        ensures
            r.wf(),
            match found {
                Some(s) => r == s,
                None => r.version == 1 && r.last_txn == 0 && r.tables@.len() == 0
                    && r.page_gens@.len() == 0,
            },
    {
        match found {
            Some(s) => s,
            None => CdcState {
                version: 1,
                last_txn: 0,
                tables: Vec::new(),
                page_gens: Vec::new(),
            },
        }
    }

    /// The bytes of the file that holds the keys of the tables.
    pub fn save_snapshots(caches: &Vec<(String, Option<TableCache>)>) -> (r: Vec<u8>)
        ensures
            exists|ws: Seq<Seq<u32>>|
                {
                    &&& #[trigger] are_walks(ws, saved_tables(caches@))
                    &&& r@ == snapshot_bytes(saved_tables(caches@), ws)
                },
    {
        save_snapshots(caches)
    }

    /// The keys of the tables that a file holds; none where it is no such file or is cut
    /// off.
    pub fn load_snapshots(data: &[u8]) -> (r: Vec<(String, (usize, HashMap<u32, Vec<u8>>))>)
        ensures
            tables_show(
                r@,
                match parse_snapshot(data@) {
                    Some(m) => m,
                    None => Map::empty(),
                },
            ),
    {
        load_snapshots(data)
    }
}

// ── A watch ──────────────────────────────────────────────────────────────────

/// A watch under way.
pub struct Watch {
    pub state: CdcState,
    /// The saved keys that were not handed to a table yet.
    pub pending: Vec<(String, (usize, HashMap<u32, Vec<u8>>))>,
    pub caches: Vec<(String, Option<TableCache>)>,
    /// The generation of the header page that was seen last.
    pub last_hdr_gen: Option<u32>,
    pub file_size: u64,
    pub cycle_num: u64,
}

impl Watch {
    pub open spec fn wf(self) -> bool {
        &&& self.state.wf()
        &&& distinct_names(self.pending@)
        &&& distinct_names(self.caches@)
        &&& forall|n: Seq<char>|
            match #[trigger] lookup(self.caches@, n) {
                Some(Some(c)) => c.wf(),
                _ => true,
            }
    }

    pub fn new(
        state: CdcState,
        pending: Vec<(String, (usize, HashMap<u32, Vec<u8>>))>,
        file_size: u64,
    ) -> (r: Self)
        requires
            state.wf(),
            distinct_names(pending@),
        ensures
            r.wf(),
            r.state == state,
            r.pending == pending,
            r.caches@.len() == 0,
            r.last_hdr_gen is None,
            r.file_size == file_size,
            r.cycle_num == 0,
    {
        Watch {
            state,
            pending,
            caches: Vec::new(),
            last_hdr_gen: None,
            file_size,
            cycle_num: 0,
        }
    }

    /// Takes note of the size of the file. Where it is another than before, the file has to
    /// be mapped again, and nothing that was cached of it is kept.
    pub fn note_size(&mut self, file_size: u64) -> (remap: bool)
        requires
            old(self).wf(),
        ensures
            final(self).wf(),
            size_noted(*old(self), *final(self), file_size, remap),
    {
        if file_size == self.file_size {
            return false;
        }
        self.file_size = file_size;
        self.caches = Vec::new();
        true
    }

    /// Takes note of the generation of the header page. A cycle is due where it is another
    /// than before, or the first one.
    pub fn note_header(&mut self, hdr_gen: u32) -> (due: bool)
        requires
            old(self).wf(),
        ensures
            final(self).wf(),
            header_noted(*old(self), *final(self), hdr_gen, due),
            final(self).cycle_num == (if due {
                ((old(self).cycle_num + 1) % 0x1_0000_0000_0000_0000) as u64
            } else {
                old(self).cycle_num
            }),
            final(self).state == old(self).state,
            final(self).pending == old(self).pending,
            final(self).caches == old(self).caches,
            final(self).file_size == old(self).file_size,
    {
        let due: bool = match self.last_hdr_gen {
            Some(g) => g != hdr_gen,
            None => true,
        };
        self.last_hdr_gen = Some(hdr_gen);
        if due {
            self.cycle_num = self.cycle_num.wrapping_add(1);
        }
        due
    }
}

/// What taking note of the size of the file does.
pub open spec fn size_noted(w0: Watch, w1: Watch, file_size: u64, remap: bool) -> bool {
    &&& remap == (file_size != w0.file_size)
    &&& w1.file_size == file_size
    &&& w1.state == w0.state
    &&& w1.pending == w0.pending
    &&& w1.last_hdr_gen == w0.last_hdr_gen
    &&& w1.cycle_num == w0.cycle_num
    &&& remap ==> w1.caches@.len() == 0
    &&& !remap ==> w1.caches == w0.caches
}

/// What ending a cycle does.
pub open spec fn cycle_ended(w0: Watch, w1: Watch, cycle: Cycle, dirty: bool) -> bool {
    &&& w1 == (Watch {
        state: CdcState {
            last_txn: if cycle.upserts > 0 || cycle.deletes > 0 {
                cycle.new_max
            } else {
                w0.state.last_txn
            },
            ..w0.state
        },
        ..w0
    })
    &&& dirty == (cycle.dirty || cycle.upserts > 0 || cycle.deletes > 0)
}

/// Whether a watch goes from `w0` to `w1` when it sees the generation of the header page, and
/// whether a cycle is due then.
pub open spec fn header_noted(w0: Watch, w1: Watch, hdr_gen: u32, due: bool) -> bool {
    &&& due == (w0.last_hdr_gen != Some(hdr_gen))
    &&& w1.last_hdr_gen == Some(hdr_gen)
}

/// A cycle is due on the first look and whenever the generation of the header page is another
/// than on the look before, and else not. `looks` are the states before and after each look;
/// nothing in between forgets the generation.
pub proof fn law_cycle_is_due_on_change(
    looks: Seq<(Watch, Watch)>,
    gens: Seq<u32>,
    dues: Seq<bool>,
    i: int,
)
    requires
        looks.len() == gens.len(),
        looks.len() == dues.len(),
        looks.len() > 0 ==> looks[0].0.last_hdr_gen is None,
        forall|k: int|
            0 <= k < looks.len() ==> header_noted(
                (#[trigger] looks[k]).0,
                looks[k].1,
                gens[k],
                dues[k],
            ),
        forall|k: int|
            0 < k < looks.len() ==> (#[trigger] looks[k]).0.last_hdr_gen == looks[k
                - 1].1.last_hdr_gen,
        0 <= i < looks.len(),
    ensures
        dues[i] == (i == 0 || gens[i] != gens[i - 1]),
{
    assert(header_noted(looks[i].0, looks[i].1, gens[i], dues[i]));
    if i > 0 {
        assert(header_noted(looks[i - 1].0, looks[i - 1].1, gens[i - 1], dues[i - 1]));
        assert(looks[i].0.last_hdr_gen == looks[i - 1].1.last_hdr_gen);
    }
}

// ── The turns of a watch ─────────────────────────────────────────────────────

/// What a watch does next.
#[derive(Clone, Copy, PartialEq, Eq, Debug, Structural)]
pub enum Turn {
    /// See whether it was told to stop.
    Check,
    /// Look at the database, and go through its tables if a cycle is due.
    Look,
    /// Save the state.
    Save,
    /// Wait until the next look.
    Wait,
    /// Save the state for the last time.
    SaveLast,
    /// Nothing; the watch ended as it should or not.
    End(bool),
}

/// How a turn went.
#[derive(Clone, Copy, PartialEq, Eq, Debug, Structural)]
pub enum Said {
    /// It was told to stop; there is something to save; it was saved.
    Yes,
    No,
    Failed,
}

impl Turn {
    pub open spec fn then_turn(self, said: Said) -> Turn {
        match self {
            Turn::Check => match said {
                Said::Yes => Turn::SaveLast,
                Said::No => Turn::Look,
                Said::Failed => Turn::End(false),
            },
            Turn::Look => match said {
                Said::Yes => Turn::Save,
                Said::No => Turn::Wait,
                Said::Failed => Turn::End(false),
            },
            Turn::Save => if said == Said::Yes {
                Turn::Wait
            } else {
                Turn::End(false)
            },
            Turn::Wait => Turn::Check,
            Turn::SaveLast => Turn::End(said == Said::Yes),
            Turn::End(ok) => Turn::End(ok),
        }
    }

    /// What follows a turn.
    pub fn next(self, said: Said) -> (r: Turn)
        ensures
            r == self.then_turn(said),
    {
        match self {
            Turn::Check => match said {
                Said::Yes => Turn::SaveLast,
                Said::No => Turn::Look,
                Said::Failed => Turn::End(false),
            },
            Turn::Look => match said {
                Said::Yes => Turn::Save,
                Said::No => Turn::Wait,
                Said::Failed => Turn::End(false),
            },
            Turn::Save => match said {
                Said::Yes => Turn::Wait,
                _ => Turn::End(false),
            },
            Turn::Wait => Turn::Check,
            Turn::SaveLast => match said {
                Said::Yes => Turn::End(true),
                _ => Turn::End(false),
            },
            Turn::End(ok) => Turn::End(ok),
        }
    }
}

/// Whether a watch took `turns`, which went as `says` says.
pub open spec fn turns_taken(turns: Seq<Turn>, says: Seq<Said>) -> bool {
    &&& turns.len() == says.len() + 1
    &&& turns[0] == Turn::Check
    &&& forall|i: int|
        0 <= i < says.len() ==> turns[i + 1] == turns[i].then_turn(#[trigger] says[i])
}

/// A watch that ended well was told to stop and saved its state right after that: `i` is
/// when it did.
pub proof fn law_watch_saves_before_it_ends(turns: Seq<Turn>, says: Seq<Said>, n: int) -> (i: int)
    requires
        turns_taken(turns, says),
        0 <= n < turns.len(),
        turns[n] == Turn::End(true),
    ensures
        0 < i < n,
        turns[i] == Turn::SaveLast,
        says[i] == Said::Yes,
        turns[i - 1] == Turn::Check,
        says[i - 1] == Said::Yes,
    decreases n,
{
    assert(n > 0);
    let said = says[n - 1];
    assert(turns[n] == turns[n - 1].then_turn(said));
    if turns[n - 1] == Turn::SaveLast {
        assert(n - 1 > 0);
        let asked = says[n - 2];
        assert(turns[n - 1] == turns[n - 2].then_turn(asked));
        n - 1
    } else {
        law_watch_saves_before_it_ends(turns, says, n - 1)
    }
}

/// A state that could not be saved ends a watch, and not well.
pub proof fn law_unsaved_state_ends_the_watch(turn: Turn, said: Said)
    requires
        turn == Turn::Save || turn == Turn::SaveLast,
        said != Said::Yes,
    ensures
        turn.then_turn(said) == Turn::End(false),
{
}

/// The generation of the header page.
pub fn header_gen(db: &OdsReader) -> (r: u32)
    requires
        db.wf(),
        db@.has_page(0),
    ensures
        r == page_gen(db@, 0),
{
    get_u32(db.page(0), 4)
}

/// How many pauses of 100 ms make up an interval, at least one.
pub fn pause_ticks(interval_ms: u64) -> (r: u64)
    ensures
        r == if interval_ms < 100 {
            1
        } else {
            interval_ms as int / 100
        },
{
    let n: u64 = interval_ms / 100;
    if n < 1 {
        1
    } else {
        n
    }
}

// ── A cycle ──────────────────────────────────────────────────────────────────

/// What a cycle adds up to. Sums stop at the greatest number.
#[derive(Clone, Copy)]
pub struct Cycle {
    pub upserts: u64,
    pub deletes: u64,
    pub pages: u32,
    pub skipped: u32,
    pub setup_ns: u64,
    pub copy_start_ns: u64,
    pub scan_pure_ns: u64,
    pub copy_finish_ns: u64,
    pub del_copy_ns: u64,
    pub delete_sql_ns: u64,
    pub upsert_sql_ns: u64,
    pub cleanup_ns: u64,
    pub commit_ns: u64,
    pub new_max: u64,
    pub dirty: bool,
}

impl Cycle {
    /// The cycle after a table was brought up to date from the transaction `from_txn`.
    pub open spec fn with(self, stats: DeltaStats, from_txn: u64) -> Cycle {
        Cycle {
            upserts: sum64(self.upserts, stats.upserts),
            deletes: sum64(self.deletes, stats.deletes),
            pages: sum32(self.pages, stats.pages_total),
            skipped: sum32(self.skipped, stats.pages_skipped),
            setup_ns: sum64(self.setup_ns, stats.setup_ns),
            copy_start_ns: sum64(self.copy_start_ns, stats.copy_start_ns),
            scan_pure_ns: sum64(self.scan_pure_ns, stats.scan_pure_ns),
            copy_finish_ns: sum64(self.copy_finish_ns, stats.copy_finish_ns),
            del_copy_ns: sum64(self.del_copy_ns, stats.del_copy_ns),
            delete_sql_ns: sum64(self.delete_sql_ns, stats.delete_sql_ns),
            upsert_sql_ns: sum64(self.upsert_sql_ns, stats.upsert_sql_ns),
            cleanup_ns: sum64(self.cleanup_ns, stats.cleanup_ns),
            commit_ns: sum64(self.commit_ns, stats.commit_ns),
            new_max: if stats.max_txn > self.new_max {
                stats.max_txn
            } else {
                self.new_max
            },
            dirty: self.dirty || stats.pages_scanned > 0 || stats.max_txn > from_txn,
        }
    }

    pub fn record(&mut self, stats: &DeltaStats, from_txn: u64)
        ensures
            *final(self) == old(self).with(*stats, from_txn),
    {
        self.upserts = self.upserts.saturating_add(stats.upserts);
        self.deletes = self.deletes.saturating_add(stats.deletes);
        self.pages = self.pages.saturating_add(stats.pages_total);
        self.skipped = self.skipped.saturating_add(stats.pages_skipped);
        self.setup_ns = self.setup_ns.saturating_add(stats.setup_ns);
        self.copy_start_ns = self.copy_start_ns.saturating_add(stats.copy_start_ns);
        self.scan_pure_ns = self.scan_pure_ns.saturating_add(stats.scan_pure_ns);
        self.copy_finish_ns = self.copy_finish_ns.saturating_add(stats.copy_finish_ns);
        self.del_copy_ns = self.del_copy_ns.saturating_add(stats.del_copy_ns);
        self.delete_sql_ns = self.delete_sql_ns.saturating_add(stats.delete_sql_ns);
        self.upsert_sql_ns = self.upsert_sql_ns.saturating_add(stats.upsert_sql_ns);
        self.cleanup_ns = self.cleanup_ns.saturating_add(stats.cleanup_ns);
        self.commit_ns = self.commit_ns.saturating_add(stats.commit_ns);
        if stats.max_txn > self.new_max {
            self.new_max = stats.max_txn;
        }
        if stats.pages_scanned > 0 || stats.max_txn > from_txn {
            self.dirty = true;
        }
    }
}

/// How a cycle went for a table.
pub enum TableOutcome {
    /// The columns of its key are not known.
    NoKey(OdsError),
    /// It was brought up to date from the transaction `from_txn`; it was up to date itself
    /// up to `table_txn`.
    Synced { from_txn: u64, table_txn: u64, stats: DeltaStats },
    /// It could not be brought up to date, and the connection was set up again or not.
    Failed(SyncError, Option<SinkError>),
}

impl Watch {
    /// The columns of the key of a table: those that are known, or those that the database
    /// names.
    pub open spec fn key_of(self, img: Image, table: Seq<char>) -> Option<
        Result<Seq<Seq<char>>, OdsError>,
    > {
        match lookup(self.state.tables@, table) {
            Some(t) => if t.pk_fields@.len() > 0 {
                Some(Ok(texts(t.pk_fields@)))
            } else {
                img.primary_key(table)
            },
            None => img.primary_key(table),
        }
    }

    /// The transaction up to which a table is applied.
    pub open spec fn table_txn(self, table: Seq<char>) -> u64 {
        match lookup(self.state.tables@, table) {
            Some(t) => t.last_txn,
            None => 0,
        }
    }

    /// The transaction from which on a table is scanned: nothing that the database as a
    /// whole has applied is looked at again.
    pub open spec fn from_txn(self, table: Seq<char>) -> u64 {
        if self.table_txn(table) >= self.state.last_txn {
            self.table_txn(table)
        } else {
            self.state.last_txn
        }
    }

    pub open spec fn gens_of(self, table: Seq<char>) -> Map<u32, u32> {
        match lookup(self.state.page_gens@, table) {
            Some(m) => m@,
            None => Map::empty(),
        }
    }

    pub open spec fn cache_of(self, table: Seq<char>) -> Option<TableCache> {
        match lookup(self.caches@, table) {
            Some(c) => c,
            None => None,
        }
    }

    /// The saved keys that a table starts with. They are handed over when its cache is
    /// made.
    pub open spec fn keys_for(self, table: Seq<char>) -> Option<Map<u32, Vec<u8>>> {
        match (self.cache_of(table), lookup(self.pending@, table)) {
            (None, Some(x)) => Some(x.1@),
            _ => None,
        }
    }

    /// Whether a cycle can read everything that it needs of a table.
    pub open spec fn ready(self, img: Image, table: Seq<char>) -> bool {
        match self.key_of(img, table) {
            None => false,
            Some(Err(_)) => true,
            Some(Ok(pks)) => {
                &&& 12 * pks.len() <= usize::MAX
                &&& syncable(
                    img,
                    table,
                    pks,
                    self.cache_of(table),
                    self.keys_for(table),
                    self.from_txn(table),
                    self.gens_of(table),
                )
            },
        }
    }

    /// Whether nothing is known otherwise of any table but one.
    pub open spec fn same_but(self, other: Self, table: Seq<char>) -> bool {
        &&& self.state.version == other.state.version
        &&& self.state.last_txn == other.state.last_txn
        &&& self.last_hdr_gen == other.last_hdr_gen
        &&& self.file_size == other.file_size
        &&& self.cycle_num == other.cycle_num
        &&& forall|n: Seq<char>|
            n != table ==> #[trigger] lookup(self.state.tables@, n) == lookup(
                other.state.tables@,
                n,
            )
        &&& forall|n: Seq<char>|
            n != table ==> #[trigger] lookup(self.state.page_gens@, n) == lookup(
                other.state.page_gens@,
                n,
            )
        &&& forall|n: Seq<char>|
            n != table ==> #[trigger] lookup(self.caches@, n) == lookup(other.caches@, n)
        &&& forall|n: Seq<char>|
            n != table ==> #[trigger] lookup(self.pending@, n) == lookup(other.pending@, n)
    }

    /// Whether a table has the key `pks` and is applied up to `txn`.
    pub open spec fn knows(self, table: Seq<char>, pks: Seq<Seq<char>>, txn: u64) -> bool {
        match lookup(self.state.tables@, table) {
            Some(t) => texts(t.pk_fields@) == pks && t.last_txn == txn,
            None => false,
        }
    }

}

/// Whether a watch goes from `w0` to `w1`, and a cycle from `c0` to `c1`, when a table is
/// brought up to date with an outcome, while the calls of the sink go from `l0` to `l1`.
/// Nothing else that is known of a table changes than what the outcome says, and the
/// connection is set up again exactly where the table could not be brought up to date.
pub open spec fn table_step<S: DeltaSink>(
    w0: Watch,
    w1: Watch,
    img: Image,
    table: Seq<char>,
    outcome: TableOutcome,
    c0: Cycle,
    c1: Cycle,
    debug: bool,
    l0: Option<Seq<Offer>>,
    l1: Option<Seq<Offer>>,
) -> bool {
    let key = w0.key_of(img, table)->0;
    &&& w1.wf()
    &&& w1.same_but(w0, table)
    &&& match outcome {
        TableOutcome::NoKey(e) => {
            &&& w0.key_of(img, table) == Some(Err::<Seq<Seq<char>>, OdsError>(e))
            &&& w1.knows(table, Seq::empty(), w0.table_txn(table))
            &&& w1.gens_of(table) == w0.gens_of(table)
            &&& w1.cache_of(table) == w0.cache_of(table)
            &&& lookup(w1.pending@, table) == lookup(w0.pending@, table)
            &&& c1 == c0
            &&& l1 == l0
        },
        TableOutcome::Synced { from_txn, table_txn, stats } => {
            &&& w0.key_of(img, table) is Some
            &&& key is Ok
            &&& from_txn == w0.from_txn(table)
            &&& table_txn == w0.table_txn(table)
            &&& sync_shows(
                Ok(stats),
                img,
                table,
                key->Ok_0,
                w0.cache_of(table),
                w1.cache_of(table),
                w0.keys_for(table),
                from_txn,
                w0.gens_of(table),
                w1.gens_of(table),
                debug,
                l0,
                l1,
            )
            &&& w1.knows(table, key->Ok_0, stats.max_txn)
            &&& c1 == c0.with(stats, from_txn)
            &&& stats.max_txn >= from_txn
        },
        TableOutcome::Failed(e, again) => {
            &&& reconnected::<S>(l1, again)
            &&& w0.key_of(img, table) is Some
            &&& key is Ok
            &&& sync_shows(
                Err(e),
                img,
                table,
                key->Ok_0,
                w0.cache_of(table),
                w1.cache_of(table),
                w0.keys_for(table),
                w0.from_txn(table),
                w0.gens_of(table),
                w1.gens_of(table),
                debug,
                l0,
                l1,
            )
            &&& w1.knows(table, key->Ok_0, w0.table_txn(table))
            &&& c1 == c0
        },
    }
    &&& !(outcome is NoKey) ==> lookup(w1.pending@, table) == if w0.cache_of(table) is None {
        None
    } else {
        lookup(w0.pending@, table)
    }
}

/// Whether a cycle over several tables goes through the states `ws`, the sums `cs` and the
/// calls of the sink `ls`, with the outcomes `os`.
pub open spec fn cycle_steps<S: DeltaSink>(
    ws: Seq<Watch>,
    cs: Seq<Cycle>,
    ls: Seq<Option<Seq<Offer>>>,
    img: Image,
    tables: Seq<Seq<char>>,
    os: Seq<TableOutcome>,
    debug: bool,
) -> bool {
    &&& os.len() == tables.len()
    &&& ws.len() == tables.len() + 1
    &&& cs.len() == tables.len() + 1
    &&& ls.len() == tables.len() + 1
    &&& forall|i: int|
        0 <= i < os.len() ==> table_step::<S>(
            ws[i],
            ws[i + 1],
            img,
            tables[i],
            #[trigger] os[i],
            cs[i],
            cs[i + 1],
            debug,
            ls[i],
            ls[i + 1],
        )
}

/// A cycle in which nothing was done yet.
pub open spec fn new_cycle(last_txn: u64) -> Cycle {
    Cycle {
        upserts: 0,
        deletes: 0,
        pages: 0,
        skipped: 0,
        setup_ns: 0,
        copy_start_ns: 0,
        scan_pure_ns: 0,
        copy_finish_ns: 0,
        del_copy_ns: 0,
        delete_sql_ns: 0,
        upsert_sql_ns: 0,
        cleanup_ns: 0,
        commit_ns: 0,
        new_max: last_txn,
        dirty: false,
    }
}

impl Watch {
    /// Starts a cycle.
    pub fn begin_cycle(&self) -> (r: Cycle)
        ensures
            r == new_cycle(self.state.last_txn),
    {
        Cycle {
            upserts: 0,
            deletes: 0,
            pages: 0,
            skipped: 0,
            setup_ns: 0,
            copy_start_ns: 0,
            scan_pure_ns: 0,
            copy_finish_ns: 0,
            del_copy_ns: 0,
            delete_sql_ns: 0,
            upsert_sql_ns: 0,
            cleanup_ns: 0,
            commit_ns: 0,
            new_max: self.state.last_txn,
            dirty: false,
        }
    }

    /// Whether a cycle can read everything that it needs of a table whose key has the columns
    /// `pks`.
    fn is_syncable(&self, db: &OdsReader, table: &str, pks: &Vec<String>) -> (r: bool)
        requires
            self.wf(),
            db.wf(),
        ensures
            r == (12 * pks@.len() <= usize::MAX && syncable(
                db@,
                table@,
                texts(pks@),
                self.cache_of(table@),
                self.keys_for(table@),
                self.from_txn(table@),
                self.gens_of(table@),
            )),
    {
        broadcast use vstd::std_specs::hash::group_hash_axioms;

        if pks.len() > usize::MAX / 12 {
            return false;
        }
        let table_txn: u64 = match position(&self.state.tables, table) {
            Some(i) => self.state.tables[i].1.last_txn,
            None => 0,
        };
        let from_txn: u64 = if table_txn >= self.state.last_txn {
            table_txn
        } else {
            self.state.last_txn
        };
        let no_gens: HashMap<u32, u32> = HashMap::new();
        let gens: &HashMap<u32, u32> = match position(&self.state.page_gens, table) {
            Some(i) => &self.state.page_gens[i].1,
            None => &no_gens,
        };
        let no_cache: Option<TableCache> = None;
        let cache: &Option<TableCache> = match position(&self.caches, table) {
            Some(i) => &self.caches[i].1,
            None => &no_cache,
        };
        assert(*cache == self.cache_of(table@));
        let snapshot: Option<&HashMap<u32, Vec<u8>>> = if cache.is_none() {
            match position(&self.pending, table) {
                Some(i) => Some(&(self.pending[i].1).1),
                None => None,
            }
        } else {
            None
        };
        is_syncable(db, table, pks.as_slice(), cache, snapshot, from_txn, gens)
    }

    /// Whether a cycle can read everything that it needs of a table.
    pub fn is_ready(&self, db: &OdsReader, table: &str) -> (r: bool)
        requires
            self.wf(),
            db.wf(),
        ensures
            r == self.ready(db@, table@),
    {
        if let Some(i) = position(&self.state.tables, table) {
            if self.state.tables[i].1.pk_fields.len() > 0 {
                return self.is_syncable(db, table, &self.state.tables[i].1.pk_fields);
            }
        }
        if !db.primary_key_fits(table) {
            return false;
        }
        match db.read_primary_key_fields(table) {
            Ok(pks) => self.is_syncable(db, table, &pks),
            Err(_) => true,
        }
    }

    /// Brings a table up to date as a part of a cycle.
    pub fn run_table<S: DeltaSink>(
        &mut self,
        db: &OdsReader,
        sink: &mut S,
        table: &str,
        cycle: &mut Cycle,
        debug: bool,
    ) -> (r: TableOutcome)
        requires
            old(self).wf(),
            db.wf(),
            old(self).ready(db@, table@),
        ensures
            table_step::<S>(
                *old(self),
                *final(self),
                db@,
                table@,
                r,
                *old(cycle),
                *final(cycle),
                debug,
                old(sink).offers(),
                final(sink).offers(),
            ),
    {
        let ghost pks = self.key_of(db@, table@);
        let ghost from = self.from_txn(table@);
        let ghost keys = self.keys_for(table@);
        let mut ts: TableState = match take(&mut self.state.tables, table) {
            Some(t) => t,
            None => TableState { last_txn: 0, pk_fields: Vec::new() },
        };
        if ts.pk_fields.len() == 0 {
            assert(texts(ts.pk_fields@) =~= Seq::empty());
            match db.read_primary_key_fields(table) {
                Ok(p) => {
                    ts.pk_fields = p;
                },
                Err(e) => {
                    put(&mut self.state.tables, table.to_owned(), ts);
                    return TableOutcome::NoKey(e);
                },
            }
        }
        let table_txn: u64 = ts.last_txn;
        let from_txn: u64 = if table_txn >= self.state.last_txn {
            table_txn
        } else {
            self.state.last_txn
        };
        let mut gens: HashMap<u32, u32> = match take(&mut self.state.page_gens, table) {
            Some(m) => m,
            None => HashMap::new(),
        };
        let mut cache: Option<TableCache> = match take(&mut self.caches, table) {
            Some(c) => c,
            None => None,
        };
        let snapshot: Option<HashMap<u32, Vec<u8>>> = if cache.is_none() {
            match take(&mut self.pending, table) {
                Some((_, m)) => Some(m),
                None => None,
            }
        } else {
            None
        };
        let ghost cache0 = cache;
        let ghost gens0 = gens@;
        assert(texts(ts.pk_fields@) == pks->0->Ok_0);
        assert(texts(ts.pk_fields@).len() == ts.pk_fields@.len());
        let result: Result<DeltaStats, SyncError> = sync_table(
            db,
            sink,
            table,
            from_txn,
            ts.pk_fields.as_slice(),
            &mut gens,
            &mut cache,
            snapshot,
            debug,
        );
        let ghost cache1 = cache;
        proof {
            law_cycle_keeps(
                result,
                db@,
                table@,
                pks->0->Ok_0,
                cache0,
                cache1,
                keys,
                from,
                gens0,
                gens@,
                debug,
                old(sink).offers(),
                sink.offers(),
            );
        }
        put(&mut self.state.page_gens, table.to_owned(), gens);
        put(&mut self.caches, table.to_owned(), cache);
        match result {
            Ok(stats) => {
                cycle.record(&stats, from_txn);
                ts.last_txn = stats.max_txn;
                put(&mut self.state.tables, table.to_owned(), ts);
                TableOutcome::Synced { from_txn, table_txn, stats }
            },
            Err(e) => {
                put(&mut self.state.tables, table.to_owned(), ts);
                let answer: Result<(), SinkError> = sink.reconnect();
                assert(exists|m: &mut S|
                    m.offers() == sink.offers() && #[trigger] call_ensures(
                        S::reconnect,
                        (m,),
                        answer,
                    ));
                let again: Option<SinkError> = match answer {
                    Ok(_) => None,
                    Err(re) => Some(re),
                };
                TableOutcome::Failed(e, again)
            },
        }
    }

    /// Brings every table up to date, one after the other, and adds up what was done. A table
    /// that cannot be read ends the cycle.
    pub fn run_cycle<S: DeltaSink>(
        &mut self,
        db: &OdsReader,
        sink: &mut S,
        tables: &Vec<String>,
        debug: bool,
    ) -> (r: (Cycle, Vec<TableOutcome>))
        requires
            old(self).wf(),
            db.wf(),
        ensures
            final(self).wf(),
            r.1@.len() <= tables@.len(),
            r.1@.len() < tables@.len() ==> !final(self).ready(
                db@,
                texts(tables@)[r.1@.len() as int],
            ),
            exists|ws: Seq<Watch>, cs: Seq<Cycle>, ls: Seq<Option<Seq<Offer>>>|
                {
                    &&& #[trigger] cycle_steps::<S>(
                        ws,
                        cs,
                        ls,
                        db@,
                        texts(tables@).take(r.1@.len() as int),
                        r.1@,
                        debug,
                    )
                    &&& forall|i: int|
                        0 <= i < r.1@.len() ==> (#[trigger] ws[i]).ready(db@, texts(tables@)[i])
                    &&& ws[0] == *old(self)
                    &&& ws.last() == *final(self)
                    &&& cs[0] == new_cycle(old(self).state.last_txn)
                    &&& cs.last() == r.0
                    &&& ls[0] == old(sink).offers()
                    &&& ls.last() == final(sink).offers()
                },
    {
        let mut cycle: Cycle = self.begin_cycle();
        let mut outcomes: Vec<TableOutcome> = Vec::new();
        let ghost mut ws: Seq<Watch> = seq![*self];
        let ghost mut cs: Seq<Cycle> = seq![cycle];
        let ghost mut ls: Seq<Option<Seq<Offer>>> = seq![sink.offers()];
        let ghost names = texts(tables@);
        let mut i: usize = 0;
        while i < tables.len()
            invariant
                i <= tables@.len(),
                outcomes@.len() == i,
                self.wf(),
                db.wf(),
                names == texts(tables@),
                cycle_steps::<S>(ws, cs, ls, db@, names.take(i as int), outcomes@, debug),
                ws[0] == *old(self),
                ws.last() == *self,
                cs[0] == new_cycle(old(self).state.last_txn),
                cs.last() == cycle,
                ls[0] == old(sink).offers(),
                ls.last() == sink.offers(),
                forall|k: int| 0 <= k < i ==> (#[trigger] ws[k]).ready(db@, names[k]),
            decreases tables@.len() - i,
        {
            let ghost w0 = *self;
            let ghost c0 = cycle;
            let ghost l0 = sink.offers();
            assert(names[i as int] == tables@[i as int]@);
            if !self.is_ready(db, tables[i].as_str()) {
                let r: (Cycle, Vec<TableOutcome>) = (cycle, outcomes);
                assert(cycle_steps::<S>(
            ws,
            cs,
            ls,
            db@,
            names.take(r.1@.len() as int),
            r.1@,
            debug,
        ));
                return r;
            }
            let o: TableOutcome = self.run_table(
                db,
                sink,
                tables[i].as_str(),
                &mut cycle,
                debug,
            );
            let ghost ws0 = ws;
            let ghost cs0 = cs;
            let ghost ls0 = ls;
            let ghost os0 = outcomes@;
            outcomes.push(o);
            proof {
                ws = ws.push(*self);
                cs = cs.push(cycle);
                ls = ls.push(sink.offers());
                let before = names.take(i as int);
                let now = names.take(i + 1);
                assert forall|k: int| 0 <= k < outcomes@.len() implies table_step::<S>(
                    ws[k],
                    ws[k + 1],
                    db@,
                    now[k],
                    #[trigger] outcomes@[k],
                    cs[k],
                    cs[k + 1],
                    debug,
                    ls[k],
                    ls[k + 1],
                ) by {
                    if k < os0.len() {
                        assert(os0[k] == outcomes@[k]);
                        assert(now[k] == before[k]);
                        assert(ws[k] == ws0[k] && ws[k + 1] == ws0[k + 1]);
                        assert(cs[k] == cs0[k] && cs[k + 1] == cs0[k + 1]);
                        assert(ls[k] == ls0[k] && ls[k + 1] == ls0[k + 1]);
                    } else {
                        assert(ws[k] == w0 && cs[k] == c0 && ls[k] == l0);
                    }
                }
            }
            i += 1;
        }
        let r: (Cycle, Vec<TableOutcome>) = (cycle, outcomes);
        assert(cycle_steps::<S>(
            ws,
            cs,
            ls,
            db@,
            names.take(r.1@.len() as int),
            r.1@,
            debug,
        ));
        r
    }

    /// Ends a cycle: the database is applied up to the greatest transaction if anything
    /// was. Returns whether the state has to be saved.
    pub fn end_cycle(&mut self, cycle: &Cycle) -> (dirty: bool)
        requires
            old(self).wf(),
        ensures
            final(self).wf(),
            cycle_ended(*old(self), *final(self), *cycle, dirty),
    {
        let applied: bool = cycle.upserts > 0 || cycle.deletes > 0;
        if applied {
            self.state.last_txn = cycle.new_max;
        }
        cycle.dirty || applied
    }
}

/// The watermark of the database never goes back: the greatest transaction of a cycle is
/// at least the one it started with, and at least that of every table that was brought up
/// to date.
pub proof fn law_cycle_watermark<S: DeltaSink>(
    ws: Seq<Watch>,
    cs: Seq<Cycle>,
    ls: Seq<Option<Seq<Offer>>>,
    img: Image,
    tables: Seq<Seq<char>>,
    os: Seq<TableOutcome>,
    debug: bool,
)
    requires
        cycle_steps::<S>(ws, cs, ls, img, tables, os, debug),
    ensures
        cs.last().new_max >= cs[0].new_max,
        forall|i: int|
            0 <= i < os.len() && (#[trigger] os[i]) is Synced ==> os[i]->stats.max_txn
                <= cs.last().new_max,
{
    assert forall|i: int| 0 <= i < os.len() implies cs[i].new_max <= cs[i + 1].new_max && ((
    #[trigger] os[i]) is Synced ==> os[i]->stats.max_txn <= cs[i + 1].new_max) by {
        lemma_step_watermark::<S>(
            ws[i],
            ws[i + 1],
            img,
            tables[i],
            os[i],
            cs[i],
            cs[i + 1],
            debug,
            ls[i],
            ls[i + 1],
        );
    }
    assert forall|i: int| 0 <= i < cs.len() - 1 implies (#[trigger] cs[i]).new_max <= cs[i
        + 1].new_max by {
        let o = os[i];
        assert(o is Synced ==> o->stats.max_txn <= cs[i + 1].new_max);
    }
    lemma_rising(cs, 0);
    assert forall|i: int| 0 <= i < os.len() && (#[trigger] os[i]) is Synced implies os[i]->stats.max_txn
        <= cs.last().new_max by {
        lemma_rising(cs, i + 1);
    }
}

proof fn lemma_step_watermark<S: DeltaSink>(
    w0: Watch,
    w1: Watch,
    img: Image,
    table: Seq<char>,
    o: TableOutcome,
    c0: Cycle,
    c1: Cycle,
    debug: bool,
    l0: Option<Seq<Offer>>,
    l1: Option<Seq<Offer>>,
)
    requires
        table_step::<S>(w0, w1, img, table, o, c0, c1, debug, l0, l1),
    ensures
        c0.new_max <= c1.new_max,
        o is Synced ==> o->stats.max_txn <= c1.new_max,
{
}

/// A cycle does not forget the generation of the header page that was seen last.
pub proof fn law_cycle_keeps_header<S: DeltaSink>(
    ws: Seq<Watch>,
    cs: Seq<Cycle>,
    ls: Seq<Option<Seq<Offer>>>,
    img: Image,
    tables: Seq<Seq<char>>,
    os: Seq<TableOutcome>,
    debug: bool,
    i: int,
)
    requires
        cycle_steps::<S>(ws, cs, ls, img, tables, os, debug),
        0 <= i < ws.len(),
    ensures
        ws[i].last_hdr_gen == ws[0].last_hdr_gen,
    decreases i,
{
    if i > 0 {
        law_cycle_keeps_header::<S>(ws, cs, ls, img, tables, os, debug, i - 1);
        let o = os[i - 1];
        assert(table_step::<S>(
            ws[i - 1],
            ws[i],
            img,
            tables[i - 1],
            o,
            cs[i - 1],
            cs[i],
            debug,
            ls[i - 1],
            ls[i],
        ));
    }
}

proof fn lemma_rising(cs: Seq<Cycle>, i: int)
    requires
        0 <= i < cs.len(),
        forall|k: int| 0 <= k < cs.len() - 1 ==> (#[trigger] cs[k]).new_max <= cs[k + 1].new_max,
    ensures
        cs[i].new_max <= cs.last().new_max,
    decreases cs.len() - i,
{
    if i < cs.len() - 1 {
        assert(cs[i].new_max <= cs[i + 1].new_max);
        lemma_rising(cs, i + 1);
    }
}

/// The transaction up to which a table is applied never goes back, whatever the outcome,
/// and a table that is not named keeps its own.
pub proof fn law_table_watermark<S: DeltaSink>(
    w0: Watch,
    w1: Watch,
    img: Image,
    table: Seq<char>,
    o: TableOutcome,
    c0: Cycle,
    c1: Cycle,
    debug: bool,
    l0: Option<Seq<Offer>>,
    l1: Option<Seq<Offer>>,
    name: Seq<char>,
)
    requires
        table_step::<S>(w0, w1, img, table, o, c0, c1, debug, l0, l1),
    ensures
        w1.table_txn(name) >= w0.table_txn(name),
        name != table ==> w1.table_txn(name) == w0.table_txn(name),
{
    if name != table {
        assert(lookup(w1.state.tables@, name) == lookup(w0.state.tables@, name));
    }
}

} // verus!
