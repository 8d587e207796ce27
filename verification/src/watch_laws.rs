//! What a watch does from look to look, and from table to table.
use crate::cdc::TableCache;
use crate::names::lookup;
use crate::ods::{Image, OdsError};
use crate::sink::{DeltaSink, Offer};
use crate::snapshot::{saved_tables, Saved};
use crate::sync::{DeltaStats, SyncError};
use crate::text::texts;
use crate::watch::{
    cycle_ended, cycle_steps, new_cycle, pause_ticks, size_noted, table_step, CdcState, Cycle,
    Said, TableOutcome, Turn, Watch,
};
use vstd::prelude::*;

verus! {

// ── Transactions ─────────────────────────────────────────────────────────────

/// A table is read from the greater of two transactions: the one up to which it is applied
/// itself and the one up to which the database is.
pub proof fn law_table_is_read_from_the_later_transaction(w: Watch, table: Seq<char>)
    ensures
        w.from_txn(table) >= w.table_txn(table),
        w.from_txn(table) >= w.state.last_txn,
        w.from_txn(table) == w.table_txn(table) || w.from_txn(table) == w.state.last_txn,
        lookup(w.state.tables@, table) is None ==> w.from_txn(table) == w.state.last_txn,
        match lookup(w.state.tables@, table) {
            Some(t) => w.table_txn(table) == t.last_txn,
            None => w.table_txn(table) == 0,
        },
{
}

/// The key of a table is the one that is remembered, and where none is that of the database.
pub proof fn law_key_is_remembered(w: Watch, img: Image, table: Seq<char>)
    ensures
        match lookup(w.state.tables@, table) {
            Some(t) => t.pk_fields@.len() > 0 ==> w.key_of(img, table) == Some(
                Ok::<Seq<Seq<char>>, OdsError>(texts(t.pk_fields@)),
            ),
            None => true,
        },
        (lookup(w.state.tables@, table) is None || lookup(
            w.state.tables@,
            table,
        )->0.pk_fields@.len() == 0) ==> w.key_of(img, table) == img.primary_key(table),
{
}

/// Saved keys are handed to a table once: only while nothing is cached of it.
pub proof fn law_saved_keys_are_handed_out_once(w: Watch, table: Seq<char>)
    ensures
        w.cache_of(table) is Some ==> w.keys_for(table) is None,
        w.cache_of(table) is None && lookup(w.pending@, table) is Some ==> w.keys_for(table)
            == Some((lookup(w.pending@, table)->0).1@),
        lookup(w.pending@, table) is None ==> w.keys_for(table) is None,
{
}

/// After a table was brought up to date, it is applied up to the transaction that was reached;
/// after a failure it is where it was. Either way its key is remembered, and no other table
/// changes.
pub proof fn law_failed_table_is_tried_again<S: DeltaSink>(
    w0: Watch,
    w1: Watch,
    img: Image,
    table: Seq<char>,
    o: TableOutcome,
    c0: Cycle,
    c1: Cycle,
    debug: bool,
    l0: Option<Seq<Offer>>,
    l1: Option<Seq<Offer>>,
)
    requires
        table_step::<S>(w0, w1, img, table, o, c0, c1, debug, l0, l1),
    ensures
        match o {
            TableOutcome::Synced { stats, .. } => w1.table_txn(table) == stats.max_txn,
            TableOutcome::Failed(_, _) => w1.table_txn(table) == w0.table_txn(table) && c1 == c0,
            TableOutcome::NoKey(_) => w1.table_txn(table) == w0.table_txn(table) && c1 == c0,
        },
        o is Failed ==> match o->Failed_0 {
            SyncError::Sink(_) => w1.gens_of(table) == w0.gens_of(table),
            SyncError::Ods(_) => w1.gens_of(table) == w0.gens_of(table),
        },
        w1.state.last_txn == w0.state.last_txn,
        o is NoKey ==> w0.key_of(img, table)->0 is Err,
        o is NoKey || w0.key_of(img, table)->0 is Ok,
{
}

/// The database is applied up to the greatest transaction of a cycle if the cycle changed
/// anything, and else stays where it was. Nothing else changes, and what has changed is to be
/// saved.
pub proof fn law_cycle_moves_the_watermark(w0: Watch, w1: Watch, cycle: Cycle, dirty: bool)
    requires
        cycle_ended(w0, w1, cycle, dirty),
    ensures
        cycle.upserts + cycle.deletes > 0 ==> w1.state.last_txn == cycle.new_max && dirty,
        cycle.upserts + cycle.deletes == 0 ==> w1.state.last_txn == w0.state.last_txn,
        dirty <==> cycle.dirty || cycle.upserts > 0 || cycle.deletes > 0,
        w1.state.tables == w0.state.tables,
        w1.state.page_gens == w0.state.page_gens,
        w1.caches == w0.caches,
        w1.pending == w0.pending,
        w1.last_hdr_gen == w0.last_hdr_gen,
{
}

/// Nothing that was cached of a file outlives a change of its size, and a change of its size
/// is the only thing that has it forgotten here. What is known of its transactions stays.
pub proof fn law_resized_file_is_read_anew(w0: Watch, w1: Watch, size: u64, remap: bool)
    requires
        size_noted(w0, w1, size, remap),
    ensures
        remap <==> size != w0.file_size,
        size != w0.file_size ==> forall|t: Seq<char>| (#[trigger] w1.cache_of(t)) is None,
        size == w0.file_size ==> w1.caches == w0.caches,
        w1.file_size == size,
        w1.state == w0.state,
        w1.pending == w0.pending,
{
    if remap {
        assert forall|t: Seq<char>| (#[trigger] w1.cache_of(t)) is None by {
            assert(lookup(w1.caches@, t) is None);
        }
    }
}

// ── Counts ───────────────────────────────────────────────────────────────────

/// What is summed over the tables that were brought up to date.
pub open spec fn synced_sum(os: Seq<TableOutcome>, f: spec_fn(DeltaStats) -> int) -> int
    decreases os.len(),
{
    if os.len() == 0 {
        0
    } else {
        synced_sum(os.drop_last(), f) + match os.last() {
            TableOutcome::Synced { stats, .. } => f(stats),
            _ => 0,
        }
    }
}

proof fn lemma_sum_bound(os: Seq<TableOutcome>, f: spec_fn(DeltaStats) -> int)
    requires
        forall|s: DeltaStats| #[trigger] f(s) >= 0,
    ensures
        synced_sum(os, f) >= 0,
        os.len() > 0 ==> synced_sum(os.drop_last(), f) <= synced_sum(os, f),
    decreases os.len(),
{
    if os.len() > 0 {
        lemma_sum_bound(os.drop_last(), f);
        if let TableOutcome::Synced { stats, .. } = os.last() {
            assert(f(stats) >= 0);
        }
    }
}

/// A cycle counts the changes, the pages and the pages that were passed over of all tables
/// that were brought up to date, and reaches the greatest of their transactions.
pub proof fn law_cycle_counts_its_tables<S: DeltaSink>(
    ws: Seq<Watch>,
    cs: Seq<Cycle>,
    ls: Seq<Option<Seq<Offer>>>,
    img: Image,
    tables: Seq<Seq<char>>,
    os: Seq<TableOutcome>,
    debug: bool,
    last_txn: u64,
)
    requires
        cycle_steps::<S>(ws, cs, ls, img, tables, os, debug),
        cs[0] == new_cycle(last_txn),
        synced_sum(os, |s: DeltaStats| s.upserts as int) <= u64::MAX,
        synced_sum(os, |s: DeltaStats| s.deletes as int) <= u64::MAX,
        synced_sum(os, |s: DeltaStats| s.pages_total as int) <= u32::MAX,
        synced_sum(os, |s: DeltaStats| s.pages_skipped as int) <= u32::MAX,
    ensures
        cs.last().upserts == synced_sum(os, |s: DeltaStats| s.upserts as int),
        cs.last().deletes == synced_sum(os, |s: DeltaStats| s.deletes as int),
        cs.last().pages == synced_sum(os, |s: DeltaStats| s.pages_total as int),
        cs.last().skipped == synced_sum(os, |s: DeltaStats| s.pages_skipped as int),
        cs.last().new_max == last_txn || exists|i: int|
            0 <= i < os.len() && (#[trigger] os[i]) is Synced && os[i]->stats.max_txn
                == cs.last().new_max,
        cs.last().dirty <==> exists|i: int|
            0 <= i < os.len() && (#[trigger] os[i]) is Synced && (os[i]->stats.pages_scanned > 0
                || os[i]->stats.max_txn > os[i]->from_txn),
{
    assert forall|i: int| 0 <= i < os.len() implies counted(cs[i], cs[i + 1], #[trigger] os[i]) by {
        lemma_step_counted::<S>(
            ws[i],
            ws[i + 1],
            img,
            tables[i],
            os[i],
            cs[i],
            cs[i + 1],
            debug,
            ls[i],
            ls[i + 1],
        );
    }
    lemma_counts(cs, os, last_txn);
}

/// Whether a cycle counts a table if that was brought up to date.
pub open spec fn counted(c0: Cycle, c1: Cycle, o: TableOutcome) -> bool {
    match o {
        TableOutcome::Synced { from_txn, stats, .. } => c1 == c0.with(stats, from_txn),
        _ => c1 == c0,
    }
}

proof fn lemma_step_counted<S: DeltaSink>(
    w0: Watch,
    w1: Watch,
    img: Image,
    table: Seq<char>,
    o: TableOutcome,
    c0: Cycle,
    c1: Cycle,
    debug: bool,
    l0: Option<Seq<Offer>>,
    l1: Option<Seq<Offer>>,
)
    requires
        table_step::<S>(w0, w1, img, table, o, c0, c1, debug, l0, l1),
    ensures
        counted(c0, c1, o),
{
}

proof fn lemma_counts(cs: Seq<Cycle>, os: Seq<TableOutcome>, last_txn: u64)
    requires
        cs.len() == os.len() + 1,
        cs[0] == new_cycle(last_txn),
        forall|i: int| 0 <= i < os.len() ==> counted(cs[i], cs[i + 1], #[trigger] os[i]),
        synced_sum(os, |s: DeltaStats| s.upserts as int) <= u64::MAX,
        synced_sum(os, |s: DeltaStats| s.deletes as int) <= u64::MAX,
        synced_sum(os, |s: DeltaStats| s.pages_total as int) <= u32::MAX,
        synced_sum(os, |s: DeltaStats| s.pages_skipped as int) <= u32::MAX,
    ensures
        cs.last().upserts == synced_sum(os, |s: DeltaStats| s.upserts as int),
        cs.last().deletes == synced_sum(os, |s: DeltaStats| s.deletes as int),
        cs.last().pages == synced_sum(os, |s: DeltaStats| s.pages_total as int),
        cs.last().skipped == synced_sum(os, |s: DeltaStats| s.pages_skipped as int),
        cs.last().new_max == last_txn || exists|i: int|
            0 <= i < os.len() && (#[trigger] os[i]) is Synced && os[i]->stats.max_txn
                == cs.last().new_max,
        cs.last().dirty <==> exists|i: int|
            0 <= i < os.len() && (#[trigger] os[i]) is Synced && (os[i]->stats.pages_scanned > 0
                || os[i]->stats.max_txn > os[i]->from_txn),
    decreases os.len(),
{
    if os.len() > 0 {
        let n = os.len() as int;
        let front = os.drop_last();
        let fc = cs.drop_last();
        lemma_sum_bound(os, |s: DeltaStats| s.upserts as int);
        lemma_sum_bound(os, |s: DeltaStats| s.deletes as int);
        lemma_sum_bound(os, |s: DeltaStats| s.pages_total as int);
        lemma_sum_bound(os, |s: DeltaStats| s.pages_skipped as int);
        assert forall|i: int| 0 <= i < front.len() implies counted(
            fc[i],
            fc[i + 1],
            #[trigger] front[i],
        ) by {
            assert(os[i] == front[i]);
        }
        lemma_counts(fc, front, last_txn);
        assert(counted(cs[n - 1], cs[n], os[n - 1]));
        if cs[n - 1].dirty {
            let i = choose|i: int|
                0 <= i < front.len() && (#[trigger] front[i]) is Synced && (
                front[i]->stats.pages_scanned > 0 || front[i]->stats.max_txn > front[i]->from_txn);
            assert(os[i] is Synced);
        }
        if cs[n - 1].new_max != last_txn {
            let i = choose|i: int|
                0 <= i < front.len() && (#[trigger] front[i]) is Synced && front[i]->stats.max_txn
                    == cs[n - 1].new_max;
            assert(os[i] is Synced);
        }
        if exists|i: int|
            0 <= i < os.len() && (#[trigger] os[i]) is Synced && (os[i]->stats.pages_scanned > 0
                || os[i]->stats.max_txn > os[i]->from_txn) {
            let i = choose|i: int|
                0 <= i < os.len() && (#[trigger] os[i]) is Synced && (
                os[i]->stats.pages_scanned > 0 || os[i]->stats.max_txn > os[i]->from_txn);
            if i < n - 1 {
                assert(front[i] is Synced);
            }
        }
    }
}

// ── Turns ────────────────────────────────────────────────────────────────────

/// A watch waits after every look, and sees whether it was told to stop before the next; it
/// saves what it found before it waits, and looks again only if it was not told to stop.
pub proof fn law_turns(said: Said)
    ensures
        Turn::Look.then_turn(Said::No) == Turn::Wait,
        Turn::Look.then_turn(Said::Yes) == Turn::Save,
        Turn::Save.then_turn(Said::Yes) == Turn::Wait,
        Turn::Wait.then_turn(said) == Turn::Check,
        Turn::Check.then_turn(Said::No) == Turn::Look,
        Turn::Check.then_turn(Said::Yes) == Turn::SaveLast,
        Turn::SaveLast.then_turn(Said::Yes) == Turn::End(true),
        Turn::Look.then_turn(Said::Failed) == Turn::End(false),
        forall|turn: Turn| (#[trigger] turn.then_turn(said)) == Turn::Look ==> turn == Turn::Check
            && said == Said::No,
{
}

/// An interval is made up of pauses of a tenth of a second, as many as fit, and at least one.
pub proof fn law_pauses_make_up_the_interval(ms: u64, r: u64)
    requires
        call_ensures(pause_ticks, (ms,), r),
    ensures
        r >= 1,
        ms >= 100 ==> 100 * r <= ms < 100 * r + 100,
        ms < 100 ==> r == 1,
{
}

/// Without a saved state a watch begins at transaction 0 and knows no table.
pub proof fn law_watch_begins_at_zero(found: Option<CdcState>, r: CdcState, table: Seq<char>)
    requires
        call_ensures(CdcState::loaded, (found,), r),
        found is Some ==> found->0.wf(),
    ensures
        found is Some ==> r == found->0,
        found is None ==> r.version == 1 && r.last_txn == 0 && lookup(r.tables@, table) is None
            && lookup(r.page_gens@, table) is None,
{
}

// ── Saved keys ───────────────────────────────────────────────────────────────

/// The keys of a table are saved where they have a fixed length and some are known.
pub proof fn law_known_keys_are_saved(v: Seq<(String, Option<TableCache>)>, i: int)
    requires
        0 <= i < v.len(),
        v[i].1 is Some,
        v[i].1->0.pk_byte_len > 0,
        !v[i].1->0.prev_pks_per_page@.is_empty(),
    ensures
        saved_tables(v).contains(
            Saved {
                name: v[i].0@,
                stride: v[i].1->0.pk_byte_len as int,
                pages: v[i].1->0.prev_pks_per_page@,
            },
        ),
    decreases v.len(),
{
    let front = v.drop_last();
    let all = saved_tables(v);
    let x = Saved {
        name: v[i].0@,
        stride: v[i].1->0.pk_byte_len as int,
        pages: v[i].1->0.prev_pks_per_page@,
    };
    if i < front.len() {
        assert(front[i] == v[i]);
        law_known_keys_are_saved(front, i);
        let k = choose|k: int| 0 <= k < saved_tables(front).len() && saved_tables(front)[k] == x;
        assert(all[k] == x);
    } else {
        assert(all.last() == x);
    }
}

/// Nothing else is saved: what is saved are the keys of a table that has some.
pub proof fn law_only_known_keys_are_saved(v: Seq<(String, Option<TableCache>)>, k: int) -> (i: int)
    requires
        0 <= k < saved_tables(v).len(),
    ensures
        0 <= i < v.len(),
        v[i].1 is Some && v[i].1->0.pk_byte_len > 0 && !v[i].1->0.prev_pks_per_page@.is_empty(),
        saved_tables(v)[k].name == v[i].0@,
        saved_tables(v)[k].stride == v[i].1->0.pk_byte_len,
        saved_tables(v)[k].pages == v[i].1->0.prev_pks_per_page@,
    decreases v.len(),
{
    let front = v.drop_last();
    if k < saved_tables(front).len() {
        let i = law_only_known_keys_are_saved(front, k);
        assert(front[i] == v[i]);
        i
    } else {
        v.len() - 1
    }
}

} // verus!
