//! What the gateway, a push and the command line decide.
use crate::authority::{ip_octets, rights_of, sans_of, CertSpec};
use crate::catalog::column_views;
use crate::certgen::{ca_spec, client_spec, server_spec};
use crate::cli::{
    choose_tables, constraints_of, run, watch, Args, CliError, Command, TableChoice, WatchPlan,
};
use crate::gateway::{
    answer, check_body, choose_password, delta_reply, full_reply, plan_delta, route, tenant_map,
    tenant_pair, Route,
};
use crate::merge::{
    delete_sql, shown_steps, upsert_sql, ApplyTiming, MergeMeta, MergeRun, Phase, StepView,
};
use crate::migrate::{
    copy_table_sql, load_shows, migrate_table, totals_of, Load, MigrateStats, Migration,
};
use crate::names::{distinct_names, lookup};
use crate::ods::{Image, OdsError, OdsReader};
use crate::push::{
    delta_header, delta_outcome, full_outcome, push_totals, AfterPush, PushStats, PushTotals,
};
use crate::sink::SinkError;
use crate::sql_laws::{law_load_is_of_one_table, law_merge_deletes_before_it_upserts};
use crate::sync_laws::{law_columns_fit_their_count, law_load_fills_what_is_created};
use crate::text::{find_from, lemma_find_bounds, lowercase, stands_at, texts, without_char};
use crate::tlsauth::{anchor_of, anchors_of};
use crate::wire::{DeltaHeader, Resp};
use crate::x509::SanView;
use vstd::prelude::*;

verus! {

// ── Tenants ──────────────────────────────────────────────────────────────────

proof fn lemma_equals_sign(s: Seq<char>, i: int)
    requires
        0 <= i,
    ensures
        stands_at(s, "="@, i) <==> i < s.len() && s[i] == '=',
{
    reveal_strlit("=");
    if i < s.len() {
        let w = s.subrange(i, i + 1);
        assert(w[0] == s[i]);
        if s[i] == '=' {
            assert(w =~= "="@);
        }
    }
}

/// A tenant is what stands before the first equals sign, its database what stands behind it.
pub proof fn law_tenant_and_database(tenant: Seq<char>, database: Seq<char>)
    requires
        !tenant.contains('='),
    ensures
        tenant_pair(tenant + seq!['='] + database) == Some((tenant, database)),
        tenant_pair(tenant) is None,
{
    let s = tenant + seq!['='] + database;
    let n = tenant.len() as int;
    reveal_strlit("=");
    lemma_find_bounds(s, "="@, 0);
    lemma_find_bounds(tenant, "="@, 0);
    lemma_equals_sign(s, n);
    assert(s[n] == '=');
    if let Some(k) = find_from(s, "="@, 0) {
        lemma_equals_sign(s, k);
        if k < n {
            assert(tenant[k] == '=');
        }
    }
    if let Some(k) = find_from(tenant, "="@, 0) {
        lemma_equals_sign(tenant, k);
        assert(tenant[k] == '=');
    }
    assert(s.take(n) =~= tenant);
    assert(s.skip(n + 1) =~= database);
}

/// Of two entries for one tenant the later counts, and an entry changes no other tenant.
pub proof fn law_later_entry_counts(
    specs: Seq<Seq<char>>,
    tenant: Seq<char>,
    database: Seq<char>,
    other: Seq<char>,
)
    requires
        !tenant.contains('='),
        other != tenant,
    ensures
        ({
            let now = tenant_map(specs.push(tenant + seq!['='] + database));
            &&& now.contains_key(tenant) && now[tenant] == database
            &&& now.contains_key(other) == tenant_map(specs).contains_key(other)
            &&& now.contains_key(other) ==> now[other] == tenant_map(specs)[other]
        }),
        tenant_map(Seq::empty()) == Map::<Seq<char>, Seq<char>>::empty(),
{
    law_tenant_and_database(tenant, database);
    assert(specs.push(tenant + seq!['='] + database).drop_last() =~= specs);
}

/// A name is found with the value that stands beside it.
pub proof fn law_lookup<T>(v: Seq<(String, T)>, name: Seq<char>, i: int)
    requires
        distinct_names(v),
    ensures
        0 <= i < v.len() && v[i].0@ == name ==> lookup(v, name) == Some(v[i].1),
        lookup(v, name) is None ==> forall|k: int|
            0 <= k < v.len() ==> (#[trigger] v[k]).0@ != name,
        lookup(v, name) is Some ==> exists|k: int|
            0 <= k < v.len() && (#[trigger] v[k]).0@ == name && v[k].1 == lookup(v, name)->0,
    decreases v.len(),
{
    if v.len() > 0 {
        let front = v.drop_last();
        assert(forall|k: int| 0 <= k < front.len() ==> front[k] == v[k]);
        assert(v[v.len() - 1] == v.last());
        law_lookup(front, name, i);
        if v.last().0@ != name && lookup(v, name) is Some {
            let k = choose|k: int|
                0 <= k < front.len() && (#[trigger] front[k]).0@ == name && front[k].1 == lookup(
                    front,
                    name,
                )->0;
            assert(v[k].0@ == name);
        }
    }
}

/// A client reaches the database of the tenant that its certificate names, and no other; one
/// that is no tenant is refused, with an error and no rows.
pub proof fn law_client_reaches_its_own_database(
    tenants: &Vec<(String, String)>,
    cn: &str,
    r: Route,
)
    requires
        distinct_names(tenants@),
        call_ensures(route, (tenants, cn), r),
    ensures
        match r {
            Route::Database(d) => exists|i: int|
                0 <= i < tenants@.len() && (#[trigger] tenants@[i]).0@ == cn@ && d@
                    == tenants@[i].1@,
            Route::Refused(resp) => {
                &&& forall|i: int| 0 <= i < tenants@.len() ==> (#[trigger] tenants@[i]).0@ != cn@
                &&& resp.error is Some && resp.error->0@ == "unknown tenant '"@ + cn@ + "'"@
                &&& resp.rows == 0 && resp.upserts == 0 && resp.deletes == 0
            },
        },
{
    law_lookup(tenants@, cn@, 0);
}

// ── Requests ─────────────────────────────────────────────────────────────────

/// A request for changes is merged as it says: into its table, by its columns and its key,
/// with as many changes, and both of its bodies are read.
pub proof fn law_request_is_merged_as_it_says(h: DeltaHeader, r: (MergeMeta, MergeRun))
    requires
        call_ensures(plan_delta, (h,), r),
    ensures
        r.0.pg_table@ == lowercase(h.table@),
        r.0.cols_csv@ == h.cols_csv@,
        r.0.pk_csv@ == h.pk_csv@,
        r.0.pk_col_names@ == h.pk_col_names@,
        h.n_deletes > 0 ==> shown_steps(r.1.steps@)[5] is CopyDeletes && shown_steps(
            r.1.steps@,
        )[6] == StepView::Execute(delete_sql(r.0), true, Phase::Delete),
        h.n_deletes == 0 ==> shown_steps(r.1.steps@)[5] is DrainDeletes,
        h.n_upserts > 0 ==> exists|i: int|
            0 <= i < shown_steps(r.1.steps@).len() && (#[trigger] shown_steps(r.1.steps@)[i])
                == StepView::Execute(
                upsert_sql(r.0, "_fdb_delta_"@ + without_char(r.0.pg_table@, '"')),
                true,
                Phase::Upsert,
            ),
        r.1.state is Begin,
{
    law_merge_deletes_before_it_upserts(r.0, h.n_upserts, h.n_deletes, true);
    let s = shown_steps(r.1.steps@);
    if h.n_upserts > 0 {
        let k: int = if h.n_deletes > 0 {
            7
        } else {
            6
        };
        assert(s[k] is Execute);
    }
}

/// What a client sends of a merge is what the gateway merges by.
pub proof fn law_header_carries_the_merge(
    meta: &MergeMeta,
    n_upserts: u64,
    n_deletes: u64,
    h: DeltaHeader,
    r: (MergeMeta, MergeRun),
)
    requires
        call_ensures(delta_header, (meta, n_upserts, n_deletes), h),
        call_ensures(plan_delta, (h,), r),
    ensures
        h.table@ == meta.pg_table@,
        h.n_upserts == n_upserts,
        h.n_deletes == n_deletes,
        r.0.pg_table@ == lowercase(meta.pg_table@),
        r.0.cols_csv@ == meta.cols_csv@,
        r.0.pk_csv@ == meta.pk_csv@,
        texts(r.0.pk_col_names@) == texts(meta.pk_col_names@),
{
}

/// A request failed exactly where its reply says so, and then the client has the text of the
/// failure; else a load sent as many rows as the reply says.
pub proof fn law_failure_reaches_the_client(
    resp: &Resp,
    rows: u64,
    bytes: u64,
    full: Result<PushStats, String>,
    delta: Result<ApplyTiming, SinkError>,
)
    requires
        call_ensures(full_outcome, (resp, rows, bytes), full),
        call_ensures(delta_outcome, (resp,), delta),
    ensures
        full is Err <==> resp.error is Some,
        delta is Err <==> resp.error is Some,
        full is Err ==> full->Err_0@ == "gateway rejected: "@ + resp.error->0@,
        delta is Err ==> delta->Err_0.message@ == "gateway rejected delta: "@ + resp.error->0@,
        full is Ok ==> full->Ok_0.rows_sent == resp.rows && full->Ok_0.rows_read == rows
            && full->Ok_0.bytes == bytes,
{
}

/// The gateway answers a failure with its text and without counts, and what was carried out
/// without a failure.
pub proof fn law_reply_says_what_happened(
    result: Result<Resp, String>,
    r: Resp,
    rows: u64,
    upserts: u64,
    deletes: u64,
    full: Resp,
    delta: Resp,
)
    requires
        call_ensures(answer, (result,), r),
        call_ensures(full_reply, (rows,), full),
        call_ensures(delta_reply, (upserts, deletes), delta),
    ensures
        result is Err ==> r.error is Some && r.error->0@ == result->Err_0@ && r.rows == 0
            && r.upserts == 0 && r.deletes == 0,
        result is Ok ==> r == result->Ok_0,
        full.error is None && full.rows == rows && full.upserts == 0 && full.deletes == 0,
        delta.error is None && delta.rows == 0 && delta.upserts == upserts && delta.deletes
            == deletes,
{
}

/// A load whose body was cut off is not taken for a whole one.
pub proof fn law_cut_off_load_fails(done: bool, r: Result<(), String>)
    requires
        call_ensures(check_body, (done,), r),
    ensures
        r is Ok <==> done,
{
}

/// The password of the option counts before that of the environment.
pub proof fn law_password(option: &str, environment: Option<String>, r: String)
    requires
        call_ensures(choose_password, (option, environment), r),
    ensures
        option@.len() > 0 ==> r@ == option@,
        option@.len() == 0 && environment is Some ==> r@ == environment->0@,
        option@.len() == 0 && environment is None ==> r@.len() == 0,
{
}

// ── Pushes ───────────────────────────────────────────────────────────────────

/// The sum of what every table gives, as a whole number.
pub open spec fn sum_of(outcomes: Seq<Option<PushStats>>, f: spec_fn(PushStats) -> int) -> int
    decreases outcomes.len(),
{
    if outcomes.len() == 0 {
        0
    } else {
        sum_of(outcomes.drop_last(), f) + match outcomes.last() {
            Some(s) => f(s),
            None => 0,
        }
    }
}

proof fn lemma_sum_grows(outcomes: Seq<Option<PushStats>>, f: spec_fn(PushStats) -> int)
    requires
        forall|s: PushStats| #[trigger] f(s) >= 0,
    ensures
        sum_of(outcomes, f) >= 0,
        outcomes.len() > 0 ==> sum_of(outcomes, f) >= sum_of(outcomes.drop_last(), f),
    decreases outcomes.len(),
{
    if outcomes.len() > 0 {
        lemma_sum_grows(outcomes.drop_last(), f);
        if let Some(s) = outcomes.last() {
            assert(f(s) >= 0);
        }
    }
}

/// The totals of a push are the sums over its tables, and every table is counted, among those
/// that were pushed or those that failed.
pub proof fn law_push_totals_are_sums(outcomes: Seq<Option<PushStats>>)
    requires
        outcomes.len() <= u32::MAX,
        sum_of(outcomes, |s: PushStats| s.rows_read as int) <= u64::MAX,
        sum_of(outcomes, |s: PushStats| s.rows_sent as int) <= u64::MAX,
        sum_of(outcomes, |s: PushStats| s.bytes as int) <= u64::MAX,
    ensures
        push_totals(outcomes).rows_read == sum_of(outcomes, |s: PushStats| s.rows_read as int),
        push_totals(outcomes).rows_sent == sum_of(outcomes, |s: PushStats| s.rows_sent as int),
        push_totals(outcomes).bytes_sent == sum_of(outcomes, |s: PushStats| s.bytes as int),
        push_totals(outcomes).ok + push_totals(outcomes).failed == outcomes.len(),
        push_totals(outcomes).failed == outcomes.filter(
            |o: Option<PushStats>| o is None,
        ).len(),
    decreases outcomes.len(),
{
    reveal(Seq::filter);
    if outcomes.len() > 0 {
        lemma_sum_grows(outcomes, |s: PushStats| s.rows_read as int);
        lemma_sum_grows(outcomes, |s: PushStats| s.rows_sent as int);
        lemma_sum_grows(outcomes, |s: PushStats| s.bytes as int);
        law_push_totals_are_sums(outcomes.drop_last());
    }
}

/// After a push with a table that failed the command fails; else the changes are followed
/// exactly where that was asked for.
pub proof fn law_failed_push_fails(t: &PushTotals, watch: bool, r: AfterPush)
    requires
        call_ensures(PushTotals::after, (t, watch), r),
    ensures
        r is Fail <==> t.failed > 0,
        r is Watch <==> t.failed == 0 && watch,
        r is Stop <==> t.failed == 0 && !watch,
{
}

// ── The command line ─────────────────────────────────────────────────────────

/// A table is extracted to the file that is named, or to one that is named after the table in
/// small letters; a dash stands for the standard output.
pub proof fn law_extract_goes_to_its_file(args: &Args, r: Result<Command, CliError>)
    requires
        call_ensures(run, (args,), r),
        r is Ok,
        r->Ok_0 is Extract,
    ensures
        args.table is Some,
        args.pg_database is None,
        ({
            let (table, output, to_stdout) = match r->Ok_0 {
                Command::Extract { table, output, to_stdout } => (table@, output@, to_stdout),
                _ => (Seq::empty(), Seq::empty(), false),
            };
            &&& table == args.table->0@
            &&& args.output is Some ==> output == args.output->0@
            &&& args.output is None ==> output == lowercase(args.table->0@) + ".bin"@
            &&& to_stdout <==> output == "-"@
        }),
{
}

/// Which command runs: at most one of the options decides, in a fixed order, and a table is
/// loaded only where a database of PostgreSQL is named.
pub proof fn law_command_is_chosen(args: &Args, r: Result<Command, CliError>)
    requires
        call_ensures(run, (args,), r),
    ensures
        args.bench <==> r is Ok && r->Ok_0 is Bench,
        r is Ok && r->Ok_0 is Watch <==> args.watch && !args.bench,
        r is Ok && r->Ok_0 is Inspect <==> args.inspect && !args.watch && !args.bench,
        r is Ok && r->Ok_0 is CreateTable ==> args.create_table && !args.list_tables,
        r is Ok && r->Ok_0 is ListTables ==> args.list_tables && args.database is Some,
        r is Ok && r->Ok_0 is MigrateAll ==> args.all_tables && args.pg_database is Some,
        r is Ok && r->Ok_0 is MigrateList ==> !args.all_tables && args.tables@.len() > 0
            && args.pg_database is Some,
        r is Ok && r->Ok_0 is Migrate ==> !args.all_tables && args.tables@.len() == 0
            && args.table is Some && args.pg_database is Some,
        r is Err ==> (r->Err_0 is NoDatabase ==> args.list_tables && args.database is None) && (
        r->Err_0 is NothingToMigrate ==> args.pg_database is Some && args.table is None) && (
        r->Err_0 is NothingToExtract ==> args.pg_database is None && args.table is None),
        r is Err ==> r->Err_0 is NoDatabase || r->Err_0 is NothingToMigrate
            || r->Err_0 is NothingToExtract,
{
}

/// The changes of the named tables are followed, in their order, and without a name those of
/// all tables; at an interval of at least a second, with the state in a file beside the
/// database where none is named.
pub proof fn law_watch_plan(args: &Args, r: Result<WatchPlan, CliError>)
    requires
        args.database is Some,
        args.pg_database is Some,
        call_ensures(watch, (args,), r),
    ensures
        r is Ok,
        r->Ok_0.db_path@ == args.database->0@,
        args.state_file is Some ==> r->Ok_0.state_path@ == args.state_file->0@,
        args.state_file is None ==> r->Ok_0.state_path@ == args.database->0@ + ".cdc.json"@,
        r->Ok_0.interval_secs >= 1,
        args.watch_interval > 0 ==> r->Ok_0.interval_secs == args.watch_interval,
        match r->Ok_0.tables {
            TableChoice::All => args.all_tables || (args.tables@.len() == 0 && args.table is None),
            TableChoice::Named(v) => !args.all_tables && if args.tables@.len() > 0 {
                texts(v@) == texts(args.tables@)
            } else {
                args.table is Some && texts(v@) == seq![args.table->0@]
            },
        },
{
}

/// Tables are chosen by name, the list before the single one, unless all are meant.
pub proof fn law_tables_are_chosen(
    all: bool,
    tables: &Vec<String>,
    table: &Option<String>,
    r: Option<TableChoice>,
)
    requires
        call_ensures(choose_tables, (all, tables, table), r),
    ensures
        r is None <==> !all && tables@.len() == 0 && *table is None,
        r is Some && r->0 is All <==> all,
        r is Some ==> match r->0 {
            TableChoice::All => true,
            TableChoice::Named(v) => if tables@.len() > 0 {
                texts(v@) == texts(tables@)
            } else {
                v@.len() == 1 && v@[0]@ == (*table)->0@
            },
        },
{
    if r is Some {
        if let TableChoice::Named(v) = r->0 {
            assert(texts(tables@).len() == tables@.len());
            if tables@.len() == 0 {
                assert(texts(v@).len() == 1);
                assert(texts(v@)[0] == v@[0]@);
            }
        }
    }
}

// ── Migrations ───────────────────────────────────────────────────────────────

/// A table is dropped before its load exactly where that was asked for, and it is loaded with
/// the columns that it is created with, as many as its rows announce.
pub proof fn law_migration_loads_what_it_creates(
    db: &OdsReader,
    table: &str,
    drop: bool,
    unlogged: bool,
    r: Migration,
)
    requires
        db.wf(),
        db@.loadable(table@, unlogged),
        call_ensures(migrate_table, (db, table, drop, unlogged), r),
    ensures
        r.drop_sql is Some <==> drop,
        drop ==> r.drop_sql->0@ == "DROP TABLE IF EXISTS \""@ + lowercase(table@) + "\""@,
        r.load is Err <==> db@.layout(table@)->0 is Err,
        r.load is Ok ==> {
            let x = r.load->Ok_0;
            let (rid, descs, cols) = db@.layout(table@)->0->Ok_0;
            &&& x.relation_id == rid
            &&& column_views(x.field_order@) == cols
            &&& cols.len() <= 32_767 ==> x.n_fields == cols.len()
            &&& x.copy_sql@ == "COPY \""@ + lowercase(table@)
                + "\" FROM STDIN WITH (FORMAT BINARY)"@
            &&& db@.create_table(table@, unlogged) == Some(
                Ok::<Seq<char>, OdsError>(x.create_sql@),
            )
        },
{
    law_load_is_of_one_table(table@);
    lemma_load_is_created(db@, table@, unlogged, r.load);
}

proof fn lemma_load_is_created(
    img: Image,
    table: Seq<char>,
    unlogged: bool,
    r: Result<Load, OdsError>,
)
    requires
        img.loadable(table, unlogged),
        load_shows(img, table, unlogged, r),
    ensures
        r is Err <==> img.layout(table)->0 is Err,
        r is Ok ==> {
            let x = r->Ok_0;
            let (rid, descs, cols) = img.layout(table)->0->Ok_0;
            &&& x.relation_id == rid
            &&& column_views(x.field_order@) == cols
            &&& cols.len() <= 32_767 ==> x.n_fields == cols.len()
            &&& x.copy_sql@ == copy_table_sql(table)
            &&& img.create_table(table, unlogged) == Some(Ok::<Seq<char>, OdsError>(x.create_sql@))
        },
{
    if r is Ok {
        let x = r->Ok_0;
        let (rid, descs, cols) = img.layout(table)->0->Ok_0;
        law_load_fills_what_is_created(img, table, rid, descs, cols);
        assert(column_views(x.field_order@).len() == x.field_order@.len());
        law_columns_fit_their_count(if cols.len() <= 32_767 {
            cols.len() as int
        } else {
            0
        });
    }
}

/// What is summed over the tables that were migrated.
pub open spec fn migrated_sum(
    outcomes: Seq<Option<MigrateStats>>,
    f: spec_fn(MigrateStats) -> int,
) -> int
    decreases outcomes.len(),
{
    if outcomes.len() == 0 {
        0
    } else {
        migrated_sum(outcomes.drop_last(), f) + match outcomes.last() {
            Some(s) => f(s),
            None => 0,
        }
    }
}

proof fn lemma_migrated_grows(
    outcomes: Seq<Option<MigrateStats>>,
    f: spec_fn(MigrateStats) -> int,
)
    requires
        forall|s: MigrateStats| #[trigger] f(s) >= 0,
    ensures
        migrated_sum(outcomes, f) >= 0,
        outcomes.len() > 0 ==> migrated_sum(outcomes, f) >= migrated_sum(
            outcomes.drop_last(),
            f,
        ),
    decreases outcomes.len(),
{
    if outcomes.len() > 0 {
        lemma_migrated_grows(outcomes.drop_last(), f);
        if let Some(s) = outcomes.last() {
            assert(f(s) >= 0);
        }
    }
}

/// The totals of a migration are the sums over its tables.
pub proof fn law_migration_totals_are_sums(outcomes: Seq<Option<MigrateStats>>)
    requires
        outcomes.len() <= usize::MAX,
        migrated_sum(outcomes, |s: MigrateStats| s.rows as int) <= u64::MAX,
        migrated_sum(outcomes, |s: MigrateStats| s.bytes as int) <= u64::MAX,
        migrated_sum(outcomes, |s: MigrateStats| s.fdb_ns as int) <= u64::MAX,
        migrated_sum(outcomes, |s: MigrateStats| s.pg_ns as int) <= u64::MAX,
    ensures
        totals_of(outcomes).rows == migrated_sum(outcomes, |s: MigrateStats| s.rows as int),
        totals_of(outcomes).bytes == migrated_sum(outcomes, |s: MigrateStats| s.bytes as int),
        totals_of(outcomes).fdb_ns == migrated_sum(outcomes, |s: MigrateStats| s.fdb_ns as int),
        totals_of(outcomes).pg_ns == migrated_sum(outcomes, |s: MigrateStats| s.pg_ns as int),
    decreases outcomes.len(),
{
    if outcomes.len() > 0 {
        lemma_migrated_grows(outcomes, |s: MigrateStats| s.rows as int);
        lemma_migrated_grows(outcomes, |s: MigrateStats| s.bytes as int);
        lemma_migrated_grows(outcomes, |s: MigrateStats| s.fdb_ns as int);
        lemma_migrated_grows(outcomes, |s: MigrateStats| s.pg_ns as int);
        law_migration_totals_are_sums(outcomes.drop_last());
    }
}

/// The time of a table is split in two: what was not spent on writing was spent on reading.
pub proof fn law_times_make_up_the_whole(
    rows: u64,
    bytes: u64,
    total_ns: u64,
    written_ns: u64,
    finish_ns: u64,
    r: MigrateStats,
)
    requires
        call_ensures(MigrateStats::measured, (rows, bytes, total_ns, written_ns, finish_ns), r),
        written_ns + finish_ns <= u64::MAX,
    ensures
        r.rows == rows,
        r.bytes == bytes,
        written_ns <= total_ns ==> r.fdb_ns + r.pg_ns == total_ns + finish_ns,
        written_ns > total_ns ==> r.fdb_ns == 0,
        r.pg_ns == written_ns + finish_ns,
{
}

// ── Certificates ─────────────────────────────────────────────────────────────

/// What a certificate is good for: an authority signs certificates and speaks for nobody, a
/// client speaks for its tenant, and a server for its names. None is good for two of these.
pub proof fn law_certificate_has_one_use(
    name: &str,
    sans: &[String],
    ca: CertSpec,
    client: CertSpec,
    server: CertSpec,
)
    requires
        call_ensures(ca_spec, (name,), ca),
        call_ensures(client_spec, (name,), client),
        call_ensures(server_spec, (sans,), server),
        sans@.len() > 0,
    ensures
        ca.common_name@ == name@ && client.common_name@ == name@ && server.common_name@
            == sans@[0]@,
        rights_of(ca).is_ca && !rights_of(ca).client_auth && !rights_of(ca).server_auth,
        rights_of(ca).key_usage == 1 + 32 + 64,
        rights_of(client).client_auth && !rights_of(client).is_ca && !rights_of(client).server_auth,
        rights_of(client).key_usage == 1,
        rights_of(server).server_auth && !rights_of(server).is_ca && !rights_of(server).client_auth,
        rights_of(server).key_usage == 1,
        ca.sans@.len() == 0 && client.sans@.len() == 0,
        texts(server.sans@) == texts(sans@),
{
    assert(texts(sans@)[0] == sans@[0]@);
}

/// A name is an address where it can be read as one, and else the name of a host; each stands
/// at its place.
pub proof fn law_names_of_a_server(sans: Seq<Seq<char>>, i: int)
    requires
        0 <= i < sans.len(),
    ensures
        sans_of(sans).len() == sans.len(),
        match ip_octets(sans[i]) {
            Some(b) => sans_of(sans)[i] == SanView::Ip(b),
            None => sans_of(sans)[i] == SanView::Dns(sans[i]),
        },
{
}

/// The constraints of a table are shown for a name behind a fixed beginning.
pub proof fn law_constraints_are_asked_for(args: Args, name: Seq<char>)
    ensures
        args.table is Some && args.table->0@ == "__debug_constraints:"@ + name ==> constraints_of(
            args,
        ) == Some(name),
        constraints_of(args) is Some ==> args.table is Some && args.table->0@
            == "__debug_constraints:"@ + constraints_of(args)->0,
{
    let p = "__debug_constraints:"@;
    if args.table is Some {
        let t = args.table->0@;
        if t == p + name {
            assert(t.subrange(0, p.len() as int) =~= p);
            assert(t.skip(p.len() as int) =~= name);
        }
        if constraints_of(args) is Some {
            assert(t =~= t.subrange(0, p.len() as int) + t.skip(p.len() as int));
        }
    }
}

/// The authorities of a text are those of its certificates, each at its place; one that cannot
/// be read spoils the text.
pub proof fn law_authorities_are_those_of_the_text(ders: Seq<Seq<u8>>)
    ensures
        match anchors_of(ders) {
            Some(a) => a.len() == ders.len() && forall|i: int|
                0 <= i < ders.len() ==> anchor_of(ders[i]) == Some(#[trigger] a[i]),
            None => exists|i: int|
                0 <= i < ders.len() && anchor_of(#[trigger] ders[i]) is None,
        },
    decreases ders.len(),
{
    if ders.len() > 0 {
        let front = ders.drop_last();
        law_authorities_are_those_of_the_text(front);
        assert(forall|i: int| 0 <= i < front.len() ==> front[i] == ders[i]);
        match anchors_of(front) {
            Some(a) => {
                if anchor_of(ders.last()) is None {
                    assert(anchor_of(ders[ders.len() - 1]) is None);
                } else {
                    let b = anchors_of(ders)->0;
                    assert forall|i: int| 0 <= i < ders.len() implies anchor_of(ders[i]) == Some(
                        #[trigger] b[i],
                    ) by {
                        if i < front.len() {
                            assert(anchor_of(front[i]) == Some(a[i]));
                        }
                    }
                }
            },
            None => {
                let i = choose|i: int|
                    0 <= i < front.len() && anchor_of(#[trigger] front[i]) is None;
                assert(anchor_of(ders[i]) is None);
            },
        }
    }
}

} // verus!
