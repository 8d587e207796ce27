//! What holds of every scan.
use crate::cdc::{
    alive_keys, are_vanished, changed_gens, former_keys, found, holds_page_keys, is_data_page,
    joined_flats, joined_others, may_vanish, page_changed, page_rebuilt, page_visits, scan_visits, vanished,
    visit, visit_of, visited_keys, TableCache, Visit,
};
use crate::flatpk::{entries, entry, lemma_increasing_unique};
use crate::maps::{is_walk, lemma_walk_unique};
use crate::ods::{flagged, page_scan, slot_count, transaction, Image, Scan, RHD_DELETED};
use crate::scan::{deletes_show, scan_shows, ScanOutput};
use vstd::prelude::*;

verus! {

// ── Where visits come from ───────────────────────────────────────────────────

/// What is collected comes from a record.
proof fn lemma_collected_from(sc: Scan, f: spec_fn(Seq<u8>) -> Option<Option<Visit>>, i: int)
    requires
        sc.collect(f) is Some,
        0 <= i < sc.collect(f)->0.len(),
    ensures
        exists|k: int|
            0 <= k < sc.recs.len() && f(#[trigger] sc.recs[k]) == Some(
                Some(sc.collect(f)->0[i]),
            ),
    decreases sc.recs.len(),
{
    if sc.recs.len() > 0 {
        let v = sc.collect(f)->0[i];
        if f(sc.recs[0]) == Some(None::<Visit>) {
            lemma_collected_from(sc.rest(), f, i);
            let k = choose|k: int|
                0 <= k < sc.rest().recs.len() && f(#[trigger] sc.rest().recs[k]) == Some(Some(v));
            assert(sc.recs[k + 1] == sc.rest().recs[k]);
        } else if i == 0 {
            assert(f(sc.recs[0]) == Some(Some(v)));
        } else {
            lemma_collected_from(sc.rest(), f, i - 1);
            let k = choose|k: int|
                0 <= k < sc.rest().recs.len() && f(#[trigger] sc.rest().recs[k]) == Some(Some(v));
            assert(sc.recs[k + 1] == sc.rest().recs[k]);
        }
    }
}

/// What a record gives is collected.
proof fn lemma_collected(
    sc: Scan,
    f: spec_fn(Seq<u8>) -> Option<Option<Visit>>,
    k: int,
    v: Visit,
)
    requires
        sc.collect(f) is Some,
        0 <= k < sc.recs.len(),
        f(sc.recs[k]) == Some(Some(v)),
    ensures
        sc.collect(f)->0.contains(v),
    decreases sc.recs.len(),
{
    let all = sc.collect(f)->0;
    if k == 0 {
        assert(all[0] == v);
    } else {
        assert(sc.rest().recs[k - 1] == sc.recs[k]);
        lemma_collected(sc.rest(), f, k - 1, v);
        let rest = sc.rest().collect(f)->0;
        let j = choose|j: int| 0 <= j < rest.len() && rest[j] == v;
        if f(sc.recs[0]) == Some(None::<Visit>) {
            assert(all[j] == v);
        } else {
            assert(all[j + 1] == v);
        }
    }
}

/// What a scan visits comes from one of its pages.
pub proof fn lemma_visit_from(
    img: Image,
    c: TableCache,
    last_txn: u64,
    gens: Map<u32, u32>,
    dps: Seq<u32>,
    i: int,
)
    requires
        scan_visits(img, c, last_txn, gens, dps) is Some,
        0 <= i < scan_visits(img, c, last_txn, gens, dps)->0.len(),
    ensures
        exists|k: int|
            {
                &&& 0 <= k < dps.len()
                &&& page_visits(img, c, last_txn, gens, #[trigger] dps[k]) is Some
                &&& page_visits(img, c, last_txn, gens, dps[k])->0.contains(
                    scan_visits(img, c, last_txn, gens, dps)->0[i],
                )
            },
    decreases dps.len(),
{
    if dps.len() > 0 {
        let first = page_visits(img, c, last_txn, gens, dps[0])->0;
        let v = scan_visits(img, c, last_txn, gens, dps)->0[i];
        if i < first.len() {
            assert(first[i] == v);
            assert(first.contains(v));
        } else {
            let tail = dps.skip(1);
            lemma_visit_from(img, c, last_txn, gens, tail, i - first.len());
            let k = choose|k: int|
                {
                    &&& 0 <= k < tail.len()
                    &&& page_visits(img, c, last_txn, gens, #[trigger] tail[k]) is Some
                    &&& page_visits(img, c, last_txn, gens, tail[k])->0.contains(v)
                };
            assert(dps[k + 1] == tail[k]);
        }
    }
}

/// What a page gives is visited by the scan.
proof fn lemma_page_visited(
    img: Image,
    c: TableCache,
    last_txn: u64,
    gens: Map<u32, u32>,
    dps: Seq<u32>,
    k: int,
    v: Visit,
)
    requires
        scan_visits(img, c, last_txn, gens, dps) is Some,
        0 <= k < dps.len(),
        page_visits(img, c, last_txn, gens, dps[k]) is Some ==> page_visits(
            img,
            c,
            last_txn,
            gens,
            dps[k],
        )->0.contains(v),
    ensures
        page_visits(img, c, last_txn, gens, dps[k]) is Some,
        scan_visits(img, c, last_txn, gens, dps)->0.contains(v),
    decreases dps.len(),
{
    let first = page_visits(img, c, last_txn, gens, dps[0])->0;
    let all = scan_visits(img, c, last_txn, gens, dps)->0;
    if k == 0 {
        let j = choose|j: int| 0 <= j < first.len() && first[j] == v;
        assert(all[j] == v);
    } else {
        let tail = dps.skip(1);
        assert(tail[k - 1] == dps[k]);
        lemma_page_visited(img, c, last_txn, gens, tail, k - 1, v);
        let rest = scan_visits(img, c, last_txn, gens, tail)->0;
        let j = choose|j: int| 0 <= j < rest.len() && rest[j] == v;
        assert(all[first.len() + j] == v);
    }
}

// ── Totals ───────────────────────────────────────────────────────────────────

/// The watermark of a scan is the greatest transaction that it saw, or the old watermark
/// where all were older: it never goes back.
pub proof fn law_watermark(visits: Seq<Visit>, last_txn: u64)
    ensures
        found(visits, last_txn).max_txn >= last_txn,
        forall|i: int|
            0 <= i < visits.len() && (#[trigger] visits[i]).txn is Some ==> visits[i].txn->0
                <= found(visits, last_txn).max_txn,
        found(visits, last_txn).max_txn == last_txn || exists|i: int|
            0 <= i < visits.len() && (#[trigger] visits[i]).txn == Some(
                found(visits, last_txn).max_txn,
            ),
    decreases visits.len(),
{
    if visits.len() > 0 {
        let front = visits.drop_last();
        law_watermark(front, last_txn);
        let m = found(visits, last_txn).max_txn;
        assert forall|i: int| 0 <= i < visits.len() && (#[trigger] visits[i]).txn is Some implies
            visits[i].txn->0 <= m by {
            if i < front.len() {
                assert(front[i] == visits[i]);
            }
        }
        if m != last_txn {
            let n = visits.len() - 1;
            if visits[n].txn != Some(m) {
                let i = choose|i: int| 0 <= i < front.len() && (#[trigger] front[i]).txn == Some(m);
                assert(visits[i].txn == Some(m));
            }
        }
    }
}

proof fn lemma_no_upserts(visits: Seq<Visit>, last_txn: u64)
    requires
        forall|i: int| 0 <= i < visits.len() ==> (#[trigger] visits[i]).upsert is None,
    ensures
        found(visits, last_txn).upserts.len() == 0,
    decreases visits.len(),
{
    if visits.len() > 0 {
        let front = visits.drop_last();
        assert forall|i: int| 0 <= i < front.len() implies (#[trigger] front[i]).upsert is None by {
            assert(front[i] == visits[i]);
        }
        lemma_no_upserts(front, last_txn);
        assert(visits[visits.len() - 1].upsert is None);
    }
}

proof fn lemma_no_txns(visits: Seq<Visit>, last_txn: u64)
    requires
        forall|i: int| 0 <= i < visits.len() ==> (#[trigger] visits[i]).txn is None,
    ensures
        found(visits, last_txn).max_txn == last_txn,
    decreases visits.len(),
{
    if visits.len() > 0 {
        let front = visits.drop_last();
        assert forall|i: int| 0 <= i < front.len() implies (#[trigger] front[i]).txn is None by {
            assert(front[i] == visits[i]);
        }
        lemma_no_txns(front, last_txn);
        assert(visits[visits.len() - 1].txn is None);
    }
}

proof fn lemma_no_deletes(visits: Seq<Visit>, last_txn: u64)
    requires
        forall|i: int| 0 <= i < visits.len() ==> (#[trigger] visits[i]).delete is None,
    ensures
        found(visits, last_txn).deletes.len() == 0,
    decreases visits.len(),
{
    if visits.len() > 0 {
        let front = visits.drop_last();
        assert forall|i: int| 0 <= i < front.len() implies (#[trigger] front[i]).delete is None by {
            assert(front[i] == visits[i]);
        }
        lemma_no_deletes(front, last_txn);
        assert(visits[visits.len() - 1].delete is None);
    }
}

// ── Laws of a scan ───────────────────────────────────────────────────────────

/// Where no page changed its generation, nothing was inserted or updated.
pub proof fn law_unchanged_pages_have_no_upserts(
    img: Image,
    c: TableCache,
    last_txn: u64,
    gens: Map<u32, u32>,
    dps: Seq<u32>,
)
    requires
        scan_visits(img, c, last_txn, gens, dps) is Some,
        forall|k: int|
            0 <= k < dps.len() && is_data_page(img, #[trigger] dps[k]) ==> !page_changed(
                img,
                gens,
                dps[k],
            ),
    ensures
        found(scan_visits(img, c, last_txn, gens, dps)->0, last_txn).upserts.len() == 0,
{
    let visits = scan_visits(img, c, last_txn, gens, dps)->0;
    assert forall|i: int| 0 <= i < visits.len() implies (#[trigger] visits[i]).upsert is None by {
        lemma_visit_from(img, c, last_txn, gens, dps, i);
        let k = choose|k: int|
            {
                &&& 0 <= k < dps.len()
                &&& page_visits(img, c, last_txn, gens, #[trigger] dps[k]) is Some
                &&& page_visits(img, c, last_txn, gens, dps[k])->0.contains(visits[i])
            };
        lemma_page_visit_from(img, c, last_txn, gens, dps[k], visits[i]);
    }
    lemma_no_upserts(visits, last_txn);
}

/// The records of a page.
pub open spec fn page_records(img: Image, n: u32) -> Seq<Seq<u8>> {
    let p = img.page(n as int);
    page_scan(p, 0, slot_count(p)).recs
}

/// A visit of a page is that of one of its records.
pub proof fn lemma_page_visit_from(
    img: Image,
    c: TableCache,
    last_txn: u64,
    gens: Map<u32, u32>,
    n: u32,
    v: Visit,
)
    requires
        page_visits(img, c, last_txn, gens, n) is Some,
        page_visits(img, c, last_txn, gens, n)->0.contains(v),
    ensures
        is_data_page(img, n),
        exists|k: int|
            {
                &&& 0 <= k < page_records(img, n).len()
                &&& visit(
                    img,
                    c,
                    last_txn,
                    page_changed(img, gens, n),
                    page_rebuilt(img, c, gens, n),
                    #[trigger] page_records(img, n)[k],
                ) == Some(v)
            },
{
    let p = img.page(n as int);
    let sc = page_scan(p, 0, slot_count(p));
    let f = visit_of(
        img,
        c,
        last_txn,
        page_changed(img, gens, n),
        page_rebuilt(img, c, gens, n),
    );
    let pv = page_visits(img, c, last_txn, gens, n)->0;
    let i = choose|i: int| 0 <= i < pv.len() && pv[i] == v;
    lemma_collected_from(sc, f, i);
    let k = choose|k: int|
        0 <= k < sc.recs.len() && f(#[trigger] sc.recs[k]) == Some(Some(pv[i]));
    assert(f(sc.recs[k]) == Some(Some(v)));
    assert(page_records(img, n)[k] == sc.recs[k]);
}

/// A scan that follows another on the same file, with its watermark and its generations,
/// finds nothing: no row is sent twice.
pub proof fn law_rescan_finds_nothing(
    img: Image,
    c: TableCache,
    after: TableCache,
    last_txn: u64,
    gens: Map<u32, u32>,
    dps: Seq<u32>,
)
    requires
        scan_visits(img, c, last_txn, gens, dps) is Some,
        ({
            let m = found(scan_visits(img, c, last_txn, gens, dps)->0, last_txn).max_txn;
            let seen = gens.union_prefer_right(changed_gens(img, gens, dps));
            scan_visits(img, after, m, seen, dps) is Some
        }),
    ensures
        ({
            let m = found(scan_visits(img, c, last_txn, gens, dps)->0, last_txn).max_txn;
            let seen = gens.union_prefer_right(changed_gens(img, gens, dps));
            let again = found(scan_visits(img, after, m, seen, dps)->0, m);
            &&& again.upserts.len() == 0
            &&& again.deletes.len() == 0
            &&& !after.first_cycle() ==> again.max_txn == m
            &&& changed_gens(img, seen, dps) == Map::<u32, u32>::empty()
        }),
{
    let first = scan_visits(img, c, last_txn, gens, dps)->0;
    let m = found(first, last_txn).max_txn;
    let now = changed_gens(img, gens, dps);
    let seen = gens.union_prefer_right(now);
    let second = scan_visits(img, after, m, seen, dps)->0;
    law_watermark(first, last_txn);
    assert forall|k: int| 0 <= k < dps.len() && is_data_page(img, #[trigger] dps[k]) implies
        !page_changed(img, seen, dps[k]) by {
        assert(dps.contains(dps[k]));
        assert(now.contains_key(dps[k]) <==> page_changed(img, gens, dps[k]));
    }
    law_unchanged_pages_have_no_upserts(img, after, m, seen, dps);
    assert(changed_gens(img, seen, dps) =~= Map::<u32, u32>::empty()) by {
        assert forall|n: u32| !(#[trigger] changed_gens(img, seen, dps).contains_key(n)) by {
            if dps.contains(n) {
                let k = choose|k: int| 0 <= k < dps.len() && dps[k] == n;
                assert(is_data_page(img, dps[k]) ==> !page_changed(img, seen, dps[k]));
            }
        }
    }
    assert forall|i: int| 0 <= i < second.len() implies (#[trigger] second[i]).delete is None && (
    !after.first_cycle() ==> second[i].txn is None) by {
        lemma_visit_from(img, after, m, seen, dps, i);
        let k = choose|k: int|
            {
                &&& 0 <= k < dps.len()
                &&& page_visits(img, after, m, seen, #[trigger] dps[k]) is Some
                &&& page_visits(img, after, m, seen, dps[k])->0.contains(second[i])
            };
        let n = dps[k];
        lemma_page_visit_from(img, after, m, seen, n, second[i]);
        let j = choose|j: int|
            {
                &&& 0 <= j < page_records(img, n).len()
                &&& visit(
                    img,
                    after,
                    m,
                    page_changed(img, seen, n),
                    page_rebuilt(img, after, seen, n),
                    #[trigger] page_records(img, n)[j],
                ) == Some(second[i])
            };
        lemma_seen_before(img, c, after, last_txn, gens, dps, k, j);
    }
    lemma_no_deletes(second, m);
    if !after.first_cycle() {
        lemma_no_txns(second, m);
    }
}

/// A deleted record that the first scan looked at is not new to the second. A record that
/// is not deleted is only looked at again where keys are collected for the first time.
proof fn lemma_seen_before(
    img: Image,
    c: TableCache,
    after: TableCache,
    last_txn: u64,
    gens: Map<u32, u32>,
    dps: Seq<u32>,
    k: int,
    j: int,
)
    requires
        0 <= k < dps.len(),
        scan_visits(img, c, last_txn, gens, dps) is Some,
        is_data_page(img, dps[k]),
        0 <= j < page_records(img, dps[k]).len(),
    ensures
        ({
            let m = found(scan_visits(img, c, last_txn, gens, dps)->0, last_txn).max_txn;
            let seen = gens.union_prefer_right(changed_gens(img, gens, dps));
            match visit(
                img,
                after,
                m,
                page_changed(img, seen, dps[k]),
                page_rebuilt(img, after, seen, dps[k]),
                page_records(img, dps[k])[j],
            ) {
                Some(v) => v.delete is None && (!after.first_cycle() ==> v.txn is None),
                None => true,
            }
        }),
{
    let n = dps[k];
    let raw = page_records(img, n)[j];
    let first = scan_visits(img, c, last_txn, gens, dps)->0;
    let now = changed_gens(img, gens, dps);
    let seen = gens.union_prefer_right(now);
    assert(dps.contains(n));
    assert(now.contains_key(n) <==> page_changed(img, gens, n));
    assert(!page_changed(img, seen, n));
    law_watermark(first, last_txn);
    if raw.len() >= 13 && flagged(raw, RHD_DELETED) && transaction(raw) is Some {
        let t = transaction(raw)->0;
        if t > last_txn {
            let changed = page_changed(img, gens, n);
            let rebuild = page_rebuilt(img, c, gens, n);
            lemma_page_readable(img, c, last_txn, gens, dps, k);
            let p = img.page(n as int);
            let sc = page_scan(p, 0, slot_count(p));
            let f = visit_of(img, c, last_txn, changed, rebuild);
            lemma_collect_all(sc, f, j);
            let v = visit(img, c, last_txn, changed, rebuild, raw)->0;
            assert(f(raw) == Some(Some(v)));
            lemma_collected(sc, f, j, v);
            lemma_page_visited(img, c, last_txn, gens, dps, k, v);
            let i = choose|i: int| 0 <= i < first.len() && first[i] == v;
            assert(first[i].txn == Some(t));
        }
    }
}

/// Every page of a scan that succeeds can be read.
proof fn lemma_page_readable(
    img: Image,
    c: TableCache,
    last_txn: u64,
    gens: Map<u32, u32>,
    dps: Seq<u32>,
    k: int,
)
    requires
        scan_visits(img, c, last_txn, gens, dps) is Some,
        0 <= k < dps.len(),
    ensures
        page_visits(img, c, last_txn, gens, dps[k]) is Some,
    decreases k,
{
    if k > 0 {
        assert(dps.skip(1)[k - 1] == dps[k]);
        lemma_page_readable(img, c, last_txn, gens, dps.skip(1), k - 1);
    }
}

/// Every record of a collection that succeeds can be looked at.
proof fn lemma_collect_all(sc: Scan, f: spec_fn(Seq<u8>) -> Option<Option<Visit>>, k: int)
    requires
        sc.collect(f) is Some,
        0 <= k < sc.recs.len(),
    ensures
        f(sc.recs[k]) is Some,
    decreases k,
{
    if k > 0 {
        assert(sc.rest().recs[k - 1] == sc.recs[k]);
        lemma_collect_all(sc.rest(), f, k - 1);
    }
}

// ── Laws of vanished rows ────────────────────────────────────────────────────

/// The rows that vanished are the former keys that are not alive, each once.
pub proof fn law_vanished(keys: Seq<Seq<u8>>, alive: Seq<Seq<u8>>)
    ensures
        vanished(keys, alive).no_duplicates(),
        forall|k: Seq<u8>| #[trigger]
            vanished(keys, alive).contains(k) <==> keys.contains(k) && !alive.contains(k),
    decreases keys.len(),
{
    let gone = vanished(keys, alive);
    if keys.len() > 0 {
        let front = keys.drop_last();
        let x = keys.last();
        law_vanished(front, alive);
        let before = vanished(front, alive);
        assert forall|k: Seq<u8>| keys.contains(k) <==> #[trigger] front.contains(k) || k == x by {
            if front.contains(k) {
                let i = choose|i: int| 0 <= i < front.len() && front[i] == k;
                assert(keys[i] == k);
            }
            if keys.contains(k) && k != x {
                let i = choose|i: int| 0 <= i < keys.len() && keys[i] == k;
                assert(front[i] == k);
            }
            assert(keys[keys.len() - 1] == x);
        }
        assert forall|k: Seq<u8>| #[trigger] gone.contains(k) <==> keys.contains(k)
            && !alive.contains(k) by {
            assert(keys.contains(k) <==> front.contains(k) || k == x);
            assert(before.contains(k) <==> front.contains(k) && !alive.contains(k));
            if before.contains(k) {
                let i = choose|i: int| 0 <= i < before.len() && before[i] == k;
                assert(gone[i] == k);
            }
            if !alive.contains(x) && !before.contains(x) {
                assert(gone[before.len() as int] == x);
                if gone.contains(k) && k != x {
                    let i = choose|i: int| 0 <= i < gone.len() && gone[i] == k;
                    assert(before[i] == k);
                }
            }
        }
        assert forall|i: int, j: int| 0 <= i < gone.len() && 0 <= j < gone.len() && i != j implies
            gone[i] != gone[j] by {
            if i < before.len() {
                assert(before.contains(before[i]));
            }
            if j < before.len() {
                assert(before.contains(before[j]));
            }
        }
    }
}

/// The first scan of a table reports no row as vanished: there is nothing to compare
/// with.
pub proof fn law_first_scan_has_no_express_deletes(
    r: ScanOutput,
    img: Image,
    c: TableCache,
    last_txn: u64,
    gens: Map<u32, u32>,
)
    requires
        scan_shows(r, img, c, last_txn, gens),
        c.first_cycle(),
    ensures
        r.express_deletes == 0,
{
}

/// Whether the key lists of a map consist of whole keys.
pub open spec fn whole_keys(m: Map<u32, Vec<u8>>, stride: int) -> bool {
    forall|n: u32| #[trigger] m.contains_key(n) ==> m[n]@.len() as int % stride == 0
}

proof fn lemma_entries_append(a: Seq<u8>, b: Seq<u8>, stride: int)
    requires
        0 < stride,
        a.len() as int % stride == 0,
    ensures
        entries(a + b, stride) == entries(a, stride) + entries(b, stride),
{
    let n = a.len() as int / stride;
    let m = b.len() as int / stride;
    assert(a.len() == n * stride) by (nonlinear_arith)
        requires
            0 < stride,
            a.len() as int % stride == 0,
            n == a.len() as int / stride,
    ;
    assert((a.len() + b.len()) as int / stride == n + m) by (nonlinear_arith)
        requires
            0 < stride,
            a.len() == n * stride,
            m == b.len() as int / stride,
    ;
    let e = entries(a + b, stride);
    let f = entries(a, stride) + entries(b, stride);
    assert(n >= 0 && m >= 0) by (nonlinear_arith)
        requires
            0 < stride,
            n == a.len() as int / stride,
            m == b.len() as int / stride,
    ;
    assert forall|i: int| 0 <= i < n + m implies #[trigger] e[i] == f[i] by {
        assert(0 <= i * stride) by (nonlinear_arith)
            requires
                0 <= i,
                0 < stride,
        ;
        if i < n {
            assert(i * stride + stride <= n * stride) by (nonlinear_arith)
                requires
                    i + 1 <= n,
                    0 < stride,
            ;
            assert(entry(a + b, stride, i) =~= entry(a, stride, i));
        } else {
            assert(i * stride == n * stride + (i - n) * stride) by (nonlinear_arith);
            assert(0 <= (i - n) * stride) by (nonlinear_arith)
                requires
                    n <= i,
                    0 < stride,
            ;
            assert((i - n) * stride + stride <= b.len()) by (nonlinear_arith)
                requires
                    i - n + 1 <= m,
                    0 < stride,
                    m == b.len() as int / stride,
            ;
            assert(entry(a + b, stride, i) =~= entry(b, stride, i - n));
        }
    }
    assert(e =~= f);
}

proof fn lemma_joined_flats(m: Map<u32, Vec<u8>>, w: Seq<u32>, stride: int, n: u32, k: Seq<u8>)
    requires
        0 < stride,
        whole_keys(m, stride),
        forall|i: int| 0 <= i < w.len() ==> m.contains_key(#[trigger] w[i]),
    ensures
        joined_flats(m, w).len() as int % stride == 0,
        w.contains(n) && entries(m[n]@, stride).contains(k) ==> entries(
            joined_flats(m, w),
            stride,
        ).contains(k),
    decreases w.len(),
{
    if w.len() > 0 {
        let front = w.drop_last();
        assert forall|i: int| 0 <= i < front.len() implies m.contains_key(#[trigger] front[i]) by {
            assert(front[i] == w[i]);
        }
        lemma_joined_flats(m, front, stride, n, k);
        assert(m.contains_key(w[w.len() - 1]));
        let a = joined_flats(m, front);
        let b = m[w.last()]@;
        lemma_entries_append(a, b, stride);
        lemma_mod_sum(a.len() as int, b.len() as int, stride);
        if w.contains(n) && entries(m[n]@, stride).contains(k) {
            lemma_in_either(entries(a, stride), entries(b, stride), k);
            if n != w.last() {
                let i = choose|i: int| 0 <= i < w.len() && w[i] == n;
                assert(front[i] == n);
            }
        }
    } else {
        assert(0int % stride == 0) by (nonlinear_arith)
            requires
                0 < stride,
        ;
    }
}

proof fn lemma_joined_others(
    m: Map<u32, Vec<u8>>,
    w: Seq<u32>,
    skip: Set<u32>,
    stride: int,
    n: u32,
    k: Seq<u8>,
)
    requires
        0 < stride,
        whole_keys(m, stride),
        forall|i: int| 0 <= i < w.len() ==> m.contains_key(#[trigger] w[i]),
    ensures
        joined_others(m, w, skip).len() as int % stride == 0,
        w.contains(n) && !skip.contains(n) && entries(m[n]@, stride).contains(k) ==> entries(
            joined_others(m, w, skip),
            stride,
        ).contains(k),
    decreases w.len(),
{
    if w.len() > 0 {
        let front = w.drop_last();
        assert forall|i: int| 0 <= i < front.len() implies m.contains_key(#[trigger] front[i]) by {
            assert(front[i] == w[i]);
        }
        lemma_joined_others(m, front, skip, stride, n, k);
        assert(m.contains_key(w[w.len() - 1]));
        let a = joined_others(m, front, skip);
        let b = m[w.last()]@;
        lemma_entries_append(a, b, stride);
        lemma_mod_sum(a.len() as int, b.len() as int, stride);
        if w.contains(n) && !skip.contains(n) && entries(m[n]@, stride).contains(k) {
            lemma_in_either(entries(a, stride), entries(b, stride), k);
            if n != w.last() {
                let i = choose|i: int| 0 <= i < w.len() && w[i] == n;
                assert(front[i] == n);
            }
        }
    } else {
        assert(0int % stride == 0) by (nonlinear_arith)
            requires
                0 < stride,
        ;
    }
}

proof fn lemma_mod_sum(a: int, b: int, stride: int)
    requires
        0 < stride,
        a % stride == 0,
        b % stride == 0,
    ensures
        (a + b) % stride == 0,
{
    vstd::arithmetic::div_mod::lemma_add_mod_noop(a, b, stride);
    vstd::arithmetic::div_mod::lemma_small_mod(0, stride as nat);
}

proof fn lemma_in_either(a: Seq<Seq<u8>>, b: Seq<Seq<u8>>, k: Seq<u8>)
    ensures
        a.contains(k) || b.contains(k) ==> (a + b).contains(k),
{
    if a.contains(k) {
        let i = choose|i: int| 0 <= i < a.len() && a[i] == k;
        assert((a + b)[i] == k);
    }
    if b.contains(k) {
        let i = choose|i: int| 0 <= i < b.len() && b[i] == k;
        assert((a + b)[a.len() + i] == k);
    }
}

proof fn lemma_from_either(a: Seq<Seq<u8>>, b: Seq<Seq<u8>>, k: Seq<u8>)
    requires
        (a + b).contains(k),
    ensures
        a.contains(k) || b.contains(k),
{
    let i = choose|i: int| 0 <= i < (a + b).len() && (a + b)[i] == k;
    if i < a.len() {
        assert(a[i] == k);
    } else {
        assert(b[i - a.len()] == k);
    }
}

/// A key in the joined lists is in the list of one of the pages.
proof fn lemma_page_of_key(
    m: Map<u32, Vec<u8>>,
    w: Seq<u32>,
    skip: Set<u32>,
    stride: int,
    k: Seq<u8>,
) -> (n: u32)
    requires
        0 < stride,
        whole_keys(m, stride),
        forall|i: int| 0 <= i < w.len() ==> m.contains_key(#[trigger] w[i]),
        entries(joined_others(m, w, skip), stride).contains(k),
    ensures
        w.contains(n),
        !skip.contains(n),
        entries(m[n]@, stride).contains(k),
    decreases w.len(),
{
    if w.len() == 0 {
        assert(0int / stride == 0) by (nonlinear_arith)
            requires
                0 < stride,
        ;
        assert(entries(joined_others(m, w, skip), stride).len() == 0);
        0
    } else {
        let front = w.drop_last();
        let last = w.last();
        assert forall|i: int| 0 <= i < front.len() implies m.contains_key(#[trigger] front[i]) by {
            assert(front[i] == w[i]);
        }
        assert(w[w.len() - 1] == last);
        assert(m.contains_key(last));
        let a = joined_others(m, front, skip);
        if skip.contains(last) {
            let n = lemma_page_of_key(m, front, skip, stride, k);
            let i = choose|i: int| 0 <= i < front.len() && front[i] == n;
            assert(w[i] == n);
            n
        } else {
            lemma_joined_others(m, front, skip, stride, 0, k);
            lemma_entries_append(a, m[last]@, stride);
            lemma_from_either(entries(a, stride), entries(m[last]@, stride), k);
            if entries(a, stride).contains(k) {
                let n = lemma_page_of_key(m, front, skip, stride, k);
                let i = choose|i: int| 0 <= i < front.len() && front[i] == n;
                assert(w[i] == n);
                n
            } else {
                last
            }
        }
    }
}

proof fn lemma_flats_are_others(m: Map<u32, Vec<u8>>, w: Seq<u32>)
    ensures
        joined_flats(m, w) == joined_others(m, w, Set::empty()),
    decreases w.len(),
{
    if w.len() > 0 {
        lemma_flats_are_others(m, w.drop_last());
    }
}

/// Whether a key was on a page whose keys were collected anew.
pub open spec fn was_there(
    prev: Map<u32, Vec<u8>>,
    now: Map<u32, Vec<u8>>,
    stride: int,
    k: Seq<u8>,
) -> bool {
    exists|n: u32| #[trigger]
        prev.contains_key(n) && now.contains_key(n) && entries(prev[n]@, stride).contains(k)
}

/// Whether a key is on a page now, or was on one whose keys were not collected anew.
pub open spec fn is_there(
    prev: Map<u32, Vec<u8>>,
    now: Map<u32, Vec<u8>>,
    stride: int,
    k: Seq<u8>,
) -> bool {
    ||| exists|n: u32| #[trigger] now.contains_key(n) && entries(now[n]@, stride).contains(k)
    ||| exists|n: u32| #[trigger]
        prev.contains_key(n) && !now.contains_key(n) && entries(prev[n]@, stride).contains(k)
}

proof fn lemma_former_keys(
    m: Map<u32, Vec<u8>>,
    w: Seq<u32>,
    renewed: Set<u32>,
    stride: int,
    k: Seq<u8>,
)
    ensures
        former_keys(m, w, renewed, stride).contains(k) <==> exists|i: int|
            0 <= i < w.len() && renewed.contains(#[trigger] w[i]) && entries(
                m[w[i]]@,
                stride,
            ).contains(k),
    decreases w.len(),
{
    if w.len() > 0 {
        let front = w.drop_last();
        let last = w.last();
        lemma_former_keys(m, front, renewed, stride, k);
        let a = former_keys(m, front, renewed, stride);
        let b = entries(m[last]@, stride);
        let in_front = exists|i: int|
            0 <= i < front.len() && renewed.contains(#[trigger] front[i]) && entries(
                m[front[i]]@,
                stride,
            ).contains(k);
        if in_front {
            let i = choose|i: int|
                0 <= i < front.len() && renewed.contains(#[trigger] front[i]) && entries(
                    m[front[i]]@,
                    stride,
                ).contains(k);
            assert(w[i] == front[i]);
        }
        assert(w[w.len() - 1] == last);
        if renewed.contains(last) {
            lemma_in_either(a, b, k);
            if (a + b).contains(k) {
                lemma_from_either(a, b, k);
            }
        }
        if exists|i: int|
            0 <= i < w.len() && renewed.contains(#[trigger] w[i]) && entries(
                m[w[i]]@,
                stride,
            ).contains(k) {
            let i = choose|i: int|
                0 <= i < w.len() && renewed.contains(#[trigger] w[i]) && entries(
                    m[w[i]]@,
                    stride,
                ).contains(k);
            if i < front.len() {
                assert(front[i] == w[i]);
            }
        }
    }
}

/// The keys that are reported as vanished are exactly those that were on a page that
/// changed and are on no page any more, each once. A row that moved to another page is not
/// among them, and a row that is gone is.
pub proof fn law_vanished_keys(
    gone: Seq<Seq<u8>>,
    prev: Map<u32, Vec<u8>>,
    now: Map<u32, Vec<u8>>,
    stride: int,
    k: Seq<u8>,
)
    requires
        0 < stride,
        whole_keys(prev, stride),
        whole_keys(now, stride),
        are_vanished(gone, prev, now, stride),
    ensures
        gone.no_duplicates(),
        gone.contains(k) <==> was_there(prev, now, stride, k) && !is_there(prev, now, stride, k),
{
    let (w_now, w_prev, w_old) = choose|w_now: Seq<u32>, w_prev: Seq<u32>, w_old: Seq<u32>|
        {
            &&& is_walk(w_now, now.dom())
            &&& is_walk(w_prev, prev.dom())
            &&& is_walk(w_old, prev.dom())
            &&& gone == vanished(
                #[trigger] former_keys(prev, w_old, now.dom(), stride),
                #[trigger] alive_keys(prev, now, w_prev, w_now, stride),
            )
        };
    let former = former_keys(prev, w_old, now.dom(), stride);
    let alive = alive_keys(prev, now, w_prev, w_now, stride);
    law_vanished(former, alive);
    assert forall|i: int| 0 <= i < w_now.len() implies now.contains_key(#[trigger] w_now[i]) by {
        assert(w_now.contains(w_now[i]));
    }
    assert forall|i: int| 0 <= i < w_prev.len() implies prev.contains_key(
        #[trigger] w_prev[i],
    ) by {
        assert(w_prev.contains(w_prev[i]));
    }
    lemma_former_keys(prev, w_old, now.dom(), stride, k);
    assert(former.contains(k) <==> was_there(prev, now, stride, k)) by {
        if former.contains(k) {
            let i = choose|i: int|
                0 <= i < w_old.len() && now.dom().contains(#[trigger] w_old[i]) && entries(
                    prev[w_old[i]]@,
                    stride,
                ).contains(k);
            assert(w_old.contains(w_old[i]));
            assert(prev.contains_key(w_old[i]));
        }
        if was_there(prev, now, stride, k) {
            let n = choose|n: u32| #[trigger]
                prev.contains_key(n) && now.contains_key(n) && entries(prev[n]@, stride).contains(
                    k,
                );
            assert(w_old.contains(n));
            let i = choose|i: int| 0 <= i < w_old.len() && w_old[i] == n;
            assert(now.dom().contains(w_old[i]));
        }
    }
    let a = joined_flats(now, w_now);
    let b = joined_others(prev, w_prev, now.dom());
    lemma_joined_flats(now, w_now, stride, 0, k);
    lemma_entries_append(a, b, stride);
    assert(alive.contains(k) <==> is_there(prev, now, stride, k)) by {
        if alive.contains(k) {
            lemma_from_either(entries(a, stride), entries(b, stride), k);
            if entries(a, stride).contains(k) {
                lemma_flats_are_others(now, w_now);
                let n = lemma_page_of_key(now, w_now, Set::empty(), stride, k);
                assert(now.contains_key(n));
            } else {
                let n = lemma_page_of_key(prev, w_prev, now.dom(), stride, k);
                assert(prev.contains_key(n));
            }
        }
        if is_there(prev, now, stride, k) {
            if exists|n: u32| #[trigger]
                now.contains_key(n) && entries(now[n]@, stride).contains(k) {
                let n = choose|n: u32| #[trigger]
                    now.contains_key(n) && entries(now[n]@, stride).contains(k);
                assert(w_now.contains(n));
                lemma_joined_flats(now, w_now, stride, n, k);
            } else {
                let n = choose|n: u32| #[trigger]
                    prev.contains_key(n) && !now.contains_key(n) && entries(
                        prev[n]@,
                        stride,
                    ).contains(k);
                assert(w_prev.contains(n));
                lemma_joined_others(prev, w_prev, now.dom(), stride, n, k);
            }
            lemma_in_either(entries(a, stride), entries(b, stride), k);
        }
    }
}

/// The keys that a scan collects are whole keys.
pub proof fn law_scanned_keys_are_whole(
    r: ScanOutput,
    img: Image,
    c: TableCache,
    last_txn: u64,
    gens: Map<u32, u32>,
)
    requires
        scan_shows(r, img, c, last_txn, gens),
        c.pk_byte_len > 0,
    ensures
        whole_keys(r.new_pks_per_page@, c.pk_byte_len as int),
{
    let m = r.new_pks_per_page@;
    let stride = c.pk_byte_len as int;
    assert forall|n: u32| #[trigger] m.contains_key(n) implies m[n]@.len() as int % stride == 0 by {
        let e = entries(m[n]@, stride).len() as int;
        assert((stride * e) % stride == 0) by (nonlinear_arith)
            requires
                0 < stride,
        ;
    }
}

/// A scan reports exactly the rows that vanished: those whose key was on a page that
/// changed and is on no page any more.
pub proof fn law_scan_reports_vanished_rows(
    r: ScanOutput,
    img: Image,
    c: TableCache,
    last_txn: u64,
    gens: Map<u32, u32>,
    stubs: Seq<Seq<u8>>,
    gone: Seq<Seq<u8>>,
    k: Seq<u8>,
)
    requires
        scan_shows(r, img, c, last_txn, gens),
        deletes_show(r, c, stubs, gone),
        c.pk_byte_len > 0,
        !c.first_cycle(),
        whole_keys(c.prev_pks_per_page@, c.pk_byte_len as int),
    ensures
        gone.no_duplicates(),
        gone.contains(k) <==> was_there(
            c.prev_pks_per_page@,
            r.new_pks_per_page@,
            c.pk_byte_len as int,
            k,
        ) && !is_there(
            c.prev_pks_per_page@,
            r.new_pks_per_page@,
            c.pk_byte_len as int,
            k,
        ),
{
    let prev = c.prev_pks_per_page@;
    let now = r.new_pks_per_page@;
    let stride = c.pk_byte_len as int;
    if now.is_empty() {
        assert(now =~= Map::empty());
        assert(forall|n: u32| !now.contains_key(n));
    } else {
        law_scanned_keys_are_whole(r, img, c, last_txn, gens);
        law_vanished_keys(gone, prev, now, stride, k);
    }
}

/// Two scans of the same pages after the same transaction collect the same keys.
proof fn lemma_same_page_keys(
    a: Map<u32, Vec<u8>>,
    b: Map<u32, Vec<u8>>,
    img: Image,
    c: TableCache,
    last_txn: u64,
    gens: Map<u32, u32>,
    dps: Seq<u32>,
)
    requires
        holds_page_keys(a, img, c, last_txn, gens, dps),
        holds_page_keys(b, img, c, last_txn, gens, dps),
    ensures
        a.dom() == b.dom(),
        forall|n: u32| #[trigger]
            a.contains_key(n) ==> entries(a[n]@, c.pk_byte_len as int) == entries(
                b[n]@,
                c.pk_byte_len as int,
            ),
{
    let stride = c.pk_byte_len as int;
    assert forall|n: u32| #[trigger] a.dom().contains(n) <==> b.dom().contains(n) by {
        assert(a.contains_key(n) <==> b.contains_key(n));
    }
    assert(a.dom() =~= b.dom());
    assert forall|n: u32| #[trigger] a.contains_key(n) implies entries(a[n]@, stride) == entries(
        b[n]@,
        stride,
    ) by {
        assert(b.contains_key(n));
        let x = entries(a[n]@, stride);
        let y = entries(b[n]@, stride);
        let keys = visited_keys(page_visits(img, c, last_txn, gens, n)->0);
        assert forall|k: Seq<u8>| #[trigger] x.contains(k) <==> y.contains(k) by {
            assert(x.contains(k) <==> keys.contains(k));
            assert(y.contains(k) <==> keys.contains(k));
        }
        lemma_increasing_unique(x, y);
    }
}

/// Which keys are in the joined lists of pages does not depend on the order of the pages, if
/// all lists hold whole keys.
proof fn lemma_joined_members(m: Map<u32, Vec<u8>>, w: Seq<u32>, stride: int, k: Seq<u8>)
    requires
        0 < stride,
        whole_keys(m, stride),
        is_walk(w, m.dom()),
    ensures
        joined_flats(m, w).len() as int % stride == 0,
        entries(joined_flats(m, w), stride).contains(k) <==> exists|n: u32| #[trigger]
            m.contains_key(n) && entries(m[n]@, stride).contains(k),
{
    assert forall|i: int| 0 <= i < w.len() implies m.contains_key(#[trigger] w[i]) by {
        assert(w.contains(w[i]));
    }
    lemma_joined_flats(m, w, stride, 0, k);
    if entries(joined_flats(m, w), stride).contains(k) {
        lemma_flats_are_others(m, w);
        let n = lemma_page_of_key(m, w, Set::empty(), stride, k);
        assert(m.contains_key(n));
    }
    if exists|n: u32| #[trigger] m.contains_key(n) && entries(m[n]@, stride).contains(k) {
        let n = choose|n: u32| #[trigger]
            m.contains_key(n) && entries(m[n]@, stride).contains(k);
        assert(w.contains(n));
        lemma_joined_flats(m, w, stride, n, k);
    }
}

/// Whether a key vanished depends only on which keys are alive.
proof fn lemma_vanished_same(keys: Seq<Seq<u8>>, a: Seq<Seq<u8>>, b: Seq<Seq<u8>>)
    requires
        forall|k: Seq<u8>| #[trigger] a.contains(k) <==> b.contains(k),
    ensures
        vanished(keys, a) == vanished(keys, b),
    decreases keys.len(),
{
    if keys.len() > 0 {
        lemma_vanished_same(keys.drop_last(), a, b);
        assert(a.contains(keys.last()) <==> b.contains(keys.last()));
    }
}

/// The same keys vanish whichever of two maps with the same whole keys was collected, whatever
/// the former keys are.
proof fn lemma_same_vanish(
    x: Seq<Seq<u8>>,
    y: Seq<Seq<u8>>,
    prev: Map<u32, Vec<u8>>,
    a: Map<u32, Vec<u8>>,
    b: Map<u32, Vec<u8>>,
    stride: int,
)
    requires
        0 < stride,
        whole_keys(a, stride),
        whole_keys(b, stride),
        a.dom() == b.dom(),
        forall|n: u32| #[trigger]
            a.contains_key(n) ==> entries(a[n]@, stride) == entries(b[n]@, stride),
        are_vanished(x, prev, a, stride),
        are_vanished(y, prev, b, stride),
    ensures
        x == y,
{
    let (wa, w_prev, w_old) = choose|w_now: Seq<u32>, w_prev: Seq<u32>, w_old: Seq<u32>|
        {
            &&& is_walk(w_now, a.dom())
            &&& is_walk(w_prev, prev.dom())
            &&& is_walk(w_old, prev.dom())
            &&& x == vanished(
                #[trigger] former_keys(prev, w_old, a.dom(), stride),
                #[trigger] alive_keys(prev, a, w_prev, w_now, stride),
            )
        };
    let (wb, w_prev2, w_old2) = choose|w_now: Seq<u32>, w_prev: Seq<u32>, w_old: Seq<u32>|
        {
            &&& is_walk(w_now, b.dom())
            &&& is_walk(w_prev, prev.dom())
            &&& is_walk(w_old, prev.dom())
            &&& y == vanished(
                #[trigger] former_keys(prev, w_old, b.dom(), stride),
                #[trigger] alive_keys(prev, b, w_prev, w_now, stride),
            )
        };
    lemma_walk_unique(w_prev, w_prev2, prev.dom());
    lemma_walk_unique(w_old, w_old2, prev.dom());
    let former = former_keys(prev, w_old, a.dom(), stride);
    let others = joined_others(prev, w_prev, a.dom());
    let alive_a = alive_keys(prev, a, w_prev, wa, stride);
    let alive_b = alive_keys(prev, b, w_prev, wb, stride);
    lemma_joined_members(a, wa, stride, Seq::empty());
    lemma_joined_members(b, wb, stride, Seq::empty());
    lemma_entries_append(joined_flats(a, wa), others, stride);
    lemma_entries_append(joined_flats(b, wb), others, stride);
    assert forall|k: Seq<u8>| #[trigger] alive_a.contains(k) <==> alive_b.contains(k) by {
        let fa = entries(joined_flats(a, wa), stride);
        let fb = entries(joined_flats(b, wb), stride);
        let rest = entries(others, stride);
        lemma_joined_members(a, wa, stride, k);
        lemma_joined_members(b, wb, stride, k);
        assert(fa.contains(k) <==> fb.contains(k)) by {
            assert(forall|n: u32| #[trigger] a.contains_key(n) <==> a.dom().contains(n));
            assert(forall|n: u32| #[trigger] b.contains_key(n) <==> b.dom().contains(n));
            if fa.contains(k) {
                let n = choose|n: u32| #[trigger]
                    a.contains_key(n) && entries(a[n]@, stride).contains(k);
                assert(b.contains_key(n));
            }
            if fb.contains(k) {
                let n = choose|n: u32| #[trigger]
                    b.contains_key(n) && entries(b[n]@, stride).contains(k);
                assert(a.contains_key(n));
            }
        }
        lemma_in_either(fa, rest, k);
        lemma_in_either(fb, rest, k);
        if alive_a.contains(k) {
            lemma_from_either(fa, rest, k);
        }
        if alive_b.contains(k) {
            lemma_from_either(fb, rest, k);
        }
    }
    lemma_vanished_same(former, alive_a, alive_b);
}

/// A scan that is repeated after the same transaction, with the same pages taken as seen,
/// reports the same changes as before: as many rows, and the same stream of deleted keys,
/// whatever the keys that were known before.
pub proof fn law_repeated_scan_reports_the_same(
    r: ScanOutput,
    again: ScanOutput,
    img: Image,
    c: TableCache,
    last_txn: u64,
    gens: Map<u32, u32>,
)
    requires
        scan_shows(r, img, c, last_txn, gens),
        scan_shows(again, img, c, last_txn, gens),
    ensures
        again.upserts == r.upserts,
        again.max_txn == r.max_txn,
        again.deletes == r.deletes,
        again.express_deletes == r.express_deletes,
        again.new_gens@ == r.new_gens@,
        again.delete_buf@ == r.delete_buf@,
{
    let stride = c.pk_byte_len as int;
    let f = found(scan_visits(img, c, last_txn, gens, c.data_pages@)->0, last_txn);
    let gone = choose|gone: Seq<Seq<u8>>| #[trigger] deletes_show(r, c, f.deletes, gone);
    let gone2 = choose|gone: Seq<Seq<u8>>| #[trigger] deletes_show(again, c, f.deletes, gone);
    let a = r.new_pks_per_page@;
    let b = again.new_pks_per_page@;
    lemma_same_page_keys(a, b, img, c, last_txn, gens, c.data_pages@);
    assert(a.is_empty() == b.is_empty()) by {
        assert(a.dom() == b.dom());
    }
    if may_vanish(c, a) {
        law_scanned_keys_are_whole(r, img, c, last_txn, gens);
        law_scanned_keys_are_whole(again, img, c, last_txn, gens);
        lemma_same_vanish(
            gone,
            gone2,
            c.prev_pks_per_page@,
            a,
            b,
            stride,
        );
    } else {
        assert(gone =~= gone2);
    }
}

} // verus!
