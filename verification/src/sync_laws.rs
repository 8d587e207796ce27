//! What a cycle does for a table: which pages it reads, what it offers, what it keeps.
use crate::bytes::{sum32, sum64};
use crate::catalog::count16;
use crate::cdc::{
    data_page_count, is_data_page, page_changed, page_gen, scan_visits, unchanged_count,
    TableCache,
};
use crate::copy_laws::read_stream;
use crate::delta_laws::{keeps_keys, law_delete_stream_is_keys, law_upsert_stream_is_rows};
use crate::extract::{default_columns, progress_marks};
use crate::merge::ApplyTiming;
use crate::ods::{Desc, Image, OdsError};
use crate::scan::{scan_shows, ScanOutput};
use crate::scan_laws::whole_keys;
use crate::sink::{Offer, SinkError};
use crate::sync::{
    cycle_applied, cycle_refused, refreshed_to, settled, stats_show, upsert_stream, DeltaStats,
};
use crate::text::{decimal, joined, lowercase, texts};
use crate::value_laws::{lemma_little4, little_endian};
use vstd::prelude::*;

verus! {

// ── Pages ────────────────────────────────────────────────────────────────────

proof fn lemma_generation(img: Image, n: u32)
    requires
        img.wf(),
        img.has_page(n as int),
    ensures
        page_gen(img, n) == little_endian(img.page(n as int).subrange(4, 8)),
{
    assert(n as int * img.page_size >= 0) by (nonlinear_arith)
        requires
            0 <= n as int,
            1024 <= img.page_size,
    ;
    assert(img.page(n as int).len() == img.page_size);
    lemma_little4(img.page(n as int), 4);
}

/// A page has changed unless the generation that stands in its bytes 4 to 7 is the one that
/// was seen last.
pub proof fn law_page_changes_with_its_generation(img: Image, gens: Map<u32, u32>, n: u32)
    requires
        img.wf(),
        img.has_page(n as int),
    ensures
        page_changed(img, gens, n) <==> !(gens.contains_key(n) && gens[n] == little_endian(
            img.page(n as int).subrange(4, 8),
        )),
{
    lemma_generation(img, n);
}

/// The pages that are counted are the data pages, and those passed over are the data pages
/// that have not changed.
pub proof fn law_pages_are_counted(img: Image, gens: Map<u32, u32>, dps: Seq<u32>)
    ensures
        data_page_count(img, dps) == dps.filter(|n: u32| img.page(n as int)[0] == 5).len(),
        unchanged_count(img, gens, dps) == dps.filter(
            |n: u32| img.page(n as int)[0] == 5 && !page_changed(img, gens, n),
        ).len(),
        unchanged_count(img, gens, dps) <= data_page_count(img, dps),
    decreases dps.len(),
{
    reveal(Seq::filter);
    if dps.len() > 0 {
        law_pages_are_counted(img, gens, dps.drop_last());
    }
}

/// The pages of a table are listed anew exactly where its pointer page has another generation
/// than before, or was not there before.
pub proof fn law_changed_pointer_page_is_read_again(c: TableCache, d: TableCache, img: Image, pp: u32)
    requires
        img.wf(),
        img.has_page(pp as int),
        refreshed_to(c, d, img),
        c.first_pp == Some(pp) || (c.first_pp is None && img.first_pp(c.relation_id as int) == Some(
            Some(pp),
        )),
    ensures
        c.first_pp is None || c.pp_gen != little_endian(img.page(pp as int).subrange(4, 8)) ==> {
            &&& d.first_pp == Some(pp)
            &&& d.pp_gen == little_endian(img.page(pp as int).subrange(4, 8))
            &&& img.data_pages(pp as int) == Some(d.data_pages@)
        },
        c.first_pp is Some && c.pp_gen == little_endian(img.page(pp as int).subrange(4, 8)) ==> d
            == c,
        d.prev_pks_per_page == c.prev_pks_per_page,
        d.slots == c.slots && d.fmt_slots == c.fmt_slots,
        d.pk_indices == c.pk_indices && d.n_fields == c.n_fields && d.n_pk == c.n_pk,
{
    lemma_generation(img, pp);
}

// ── What is kept ─────────────────────────────────────────────────────────────

/// After a cycle, every data page of the table has the generation that was read: the next
/// cycle takes none of them for changed unless it is written again. What is known of other
/// pages stays, unless the pages were listed anew.
pub proof fn law_read_pages_are_settled(
    d: TableCache,
    e: TableCache,
    gens: Map<u32, u32>,
    new_gens: Map<u32, u32>,
    scan: ScanOutput,
    img: Image,
    last_txn: u64,
    renewed: bool,
    n: u32,
)
    requires
        settled(d, e, gens, new_gens, scan, renewed),
        scan_shows(scan, img, d, last_txn, gens),
    ensures
        d.data_pages@.contains(n) && is_data_page(img, n) ==> new_gens.contains_key(n)
            && new_gens[n] == page_gen(img, n) && !page_changed(img, new_gens, n),
        !d.data_pages@.contains(n) && renewed ==> !new_gens.contains_key(n),
        !d.data_pages@.contains(n) && !renewed ==> new_gens.contains_key(n) == gens.contains_key(n)
            && (gens.contains_key(n) ==> new_gens[n] == gens[n]),
{
    assert(d.data_pages@.to_set().contains(n) <==> d.data_pages@.contains(n));
}

/// After a cycle, the keys of a page that was read anew are those that were found on it, and
/// the keys of another page of the table are those that were known.
pub proof fn law_collected_keys_are_settled(
    d: TableCache,
    e: TableCache,
    gens: Map<u32, u32>,
    new_gens: Map<u32, u32>,
    scan: ScanOutput,
    renewed: bool,
    n: u32,
)
    requires
        settled(d, e, gens, new_gens, scan, renewed),
        d.pk_byte_len > 0,
        !renewed || d.data_pages@.contains(n),
    ensures
        ({
            let now = e.prev_pks_per_page@;
            let found = scan.new_pks_per_page@;
            let before = d.prev_pks_per_page@;
            &&& found.contains_key(n) ==> now.contains_key(n) && now[n] == found[n]
            &&& !found.contains_key(n) ==> now.contains_key(n) == before.contains_key(n) && (
            before.contains_key(n) ==> now[n] == before[n])
        }),
        e.slots == d.slots && e.pk_indices == d.pk_indices && e.data_pages == d.data_pages,
{
    assert(d.data_pages@.to_set().contains(n) <==> d.data_pages@.contains(n));
}

// ── What is offered ──────────────────────────────────────────────────────────

/// A cycle counts what it sends: as many upserts as rows stand in the upsert stream, and as
/// many deletes as keys in the delete stream.
pub proof fn law_stats_count_the_delta(
    s: DeltaStats,
    scan: ScanOutput,
    ns: u64,
    t: ApplyTiming,
    img: Image,
    d: TableCache,
    last_txn: u64,
    gens: Map<u32, u32>,
)
    requires
        img.wf(),
        stats_show(s, scan, ns, t),
        scan_shows(scan, img, d, last_txn, gens),
        scan_visits(img, d, last_txn, gens, d.data_pages@) is Some,
        d.n_pk == d.pk_indices@.len(),
        forall|fmt: u8| d.n_fields == (#[trigger] d.slots_in(fmt)).len(),
        d.pk_byte_len > 0 ==> whole_keys(d.prev_pks_per_page@, d.pk_byte_len as int),
        keeps_keys(d, d.prev_pks_per_page@),
    ensures
        read_stream(upsert_stream(img, d, last_txn, gens)) is Some,
        s.upserts == read_stream(upsert_stream(img, d, last_txn, gens))->0.len(),
        read_stream(scan.delete_buf@) is Some,
        s.deletes == read_stream(scan.delete_buf@)->0.len(),
        s.express_deletes <= s.deletes,
        s.max_txn == scan.max_txn,
        s.records_checked == scan.records_checked,
        s.pages_total == scan.pages_total && s.pages_skipped == scan.pages_skipped,
        scan.pages_total >= scan.pages_skipped ==> s.pages_scanned + s.pages_skipped
            == s.pages_total,
{
    law_upsert_stream_is_rows(scan, img, d, last_txn, gens);
    law_delete_stream_is_keys(scan, img, d, last_txn, gens);
}

/// Whether an offer is the changes of a table, counted.
pub open spec fn is_offer_of(o: Offer, table: Seq<char>, c: TableCache, upserts: u64, deletes: u64) -> bool {
    &&& o.pg_table == lowercase(table)
    &&& o.n_upserts == upserts
    &&& o.n_deletes == deletes
    &&& o.cols_csv == joined(texts(c.col_names@), ", "@)
    &&& o.pk_csv == joined(texts(c.pk_col_names@), ", "@)
    &&& o.pk_col_names == texts(c.pk_col_names@)
}

/// Changes are offered once in a cycle, and nothing is offered where there are none.
pub proof fn law_changes_are_offered_once(
    c: TableCache,
    e: TableCache,
    img: Image,
    table: Seq<char>,
    last_txn: u64,
    gens: Map<u32, u32>,
    new_gens: Map<u32, u32>,
    stats: DeltaStats,
    debug: bool,
    before: Seq<Offer>,
    after: Seq<Offer>,
)
    requires
        cycle_applied(
            c,
            e,
            img,
            table,
            last_txn,
            gens,
            new_gens,
            stats,
            debug,
            Some(before),
            Some(after),
        ),
    ensures
        stats.upserts == 0 && stats.deletes == 0 ==> after == before,
        stats.upserts > 0 || stats.deletes > 0 ==> {
            &&& after.len() == before.len() + 1
            &&& after.drop_last() == before
            &&& is_offer_of(after.last(), table, e, stats.upserts, stats.deletes)
            &&& after.last().answer is Ok
        },
{
    if stats.upserts > 0 || stats.deletes > 0 {
        assert(after.drop_last() =~= before);
    }
}

/// A delta that is refused was offered once, with its refusal, and had changes.
pub proof fn law_refused_delta_was_offered(
    c: TableCache,
    e: TableCache,
    img: Image,
    table: Seq<char>,
    last_txn: u64,
    gens: Map<u32, u32>,
    debug: bool,
    err: SinkError,
    before: Seq<Offer>,
    after: Seq<Offer>,
)
    requires
        cycle_refused(c, e, img, table, last_txn, gens, debug, err, Some(before), Some(after)),
    ensures
        after.len() == before.len() + 1,
        after.drop_last() == before,
        after.last().n_upserts + after.last().n_deletes > 0,
        after.last().answer == Err::<ApplyTiming, SinkError>(err),
        is_offer_of(after.last(), table, e, after.last().n_upserts, after.last().n_deletes),
        e.prev_pks_per_page == c.prev_pks_per_page,
{
    assert(after.drop_last() =~= before);
}

// ── Whole loads ──────────────────────────────────────────────────────────────

/// The columns that a load fills are those that its table is created with, in the same order.
pub proof fn law_load_fills_what_is_created(
    img: Image,
    table: Seq<char>,
    rid: u16,
    descs: Seq<Desc>,
    cols: Seq<(usize, Seq<char>)>,
)
    requires
        img.layout(table) == Some(
            Ok::<(u16, Seq<Desc>, Seq<(usize, Seq<char>)>), OdsError>((rid, descs, cols)),
        ),
    ensures
        img.relation_id(table) == Some(Ok::<u16, OdsError>(rid)),
        img.format(rid, 0xffff) == Some(Ok::<Seq<Desc>, OdsError>(descs)),
        img.copy_columns(rid, table) == Some(Ok::<Seq<(usize, Seq<char>)>, OdsError>(cols)),
        match img.columns(rid, table) {
            Some(Ok(c)) => cols == c,
            Some(Err(_)) => cols.len() == descs.len() && forall|i: int|
                0 <= i < cols.len() ==> (#[trigger] cols[i]).0 == i as usize,
            None => false,
        },
{
}

/// The count of columns that a row is headed by is the count itself, as far as it fits.
pub proof fn law_columns_fit_their_count(n: int)
    requires
        0 <= n <= 32_767,
    ensures
        count16(n) == n,
{
}

/// Progress is told at every ten thousandth row.
pub proof fn law_progress_is_told(n: nat, k: int)
    requires
        n <= u64::MAX,
    ensures
        progress_marks(n).len() * 10_000 <= n < progress_marks(n).len() * 10_000 + 10_000,
        0 <= k < progress_marks(n).len() ==> progress_marks(n)[k] == 10_000 * (k + 1)
            && progress_marks(n)[k] <= n,
{
}

/// Columns that have no name are called by their numbers.
pub proof fn law_nameless_columns_are_numbered(n: nat, i: int)
    requires
        0 <= i < n,
        n <= usize::MAX,
    ensures
        default_columns(n).len() == n,
        default_columns(n)[i].0 == i,
        default_columns(n)[i].1 == "col_"@ + decimal(i as nat),
{
    reveal_strlit("col_");
    assert("col_"@ =~= seq!['c', 'o', 'l', '_']);
}

/// Counts stop at the greatest number there is.
pub proof fn law_sums_stop_at_the_greatest(a: u64, b: u64, c: u32, d: u32)
    ensures
        sum64(a, b) == if a + b <= 0xffff_ffff_ffff_ffff {
            a + b
        } else {
            0xffff_ffff_ffff_ffff
        },
        sum32(c, d) == if c + d <= 0xffff_ffff {
            c + d
        } else {
            0xffff_ffff
        },
{
}

} // verus!
