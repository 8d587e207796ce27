//! What the gateway does with a request.
use crate::merge::{
    apply_delta_streaming, merge_steps, shown_steps, MergeMeta, MergeRun, MergeState,
};
use crate::names::{distinct_names, lookup, position, put};
use crate::ods::Desc;
use crate::schema::create_sql;
use crate::text::{
    find, find_from, lemma_find_bounds, lowercase, quote, quoted, stands_at, texts, to_lowercase,
};
use crate::wire::{DeltaHeader, FullHeader, Resp};
use vstd::prelude::*;
use vstd::string::{StrSliceExecFns, StringExecFns};

verus! {

// ── Tenants ──────────────────────────────────────────────────────────────────

/// The tenant and the database in a text `tenant=database`. The first `=` parts them.
pub open spec fn tenant_pair(t: Seq<char>) -> Option<(Seq<char>, Seq<char>)> {
    match find_from(t, "="@, 0) {
        Some(i) => Some((t.take(i), t.skip(i + 1))),
        None => None,
    }
}

/// The databases by tenant. What comes later replaces what came before.
pub open spec fn tenant_map(specs: Seq<Seq<char>>) -> Map<Seq<char>, Seq<char>>
    decreases specs.len(),
{
    if specs.len() == 0 {
        Map::empty()
    } else {
        let pair = tenant_pair(specs.last())->0;
        tenant_map(specs.drop_last()).insert(pair.0, pair.1)
    }
}

/// Whether a list of tenants holds a map.
pub open spec fn tenants_show(v: Seq<(String, String)>, m: Map<Seq<char>, Seq<char>>) -> bool {
    &&& distinct_names(v)
    &&& forall|n: Seq<char>|
        match #[trigger] lookup(v, n) {
            Some(db) => m.contains_key(n) && m[n] == db@,
            None => !m.contains_key(n),
        }
}

pub open spec fn bad_tenant(t: Seq<char>) -> Seq<char> {
    "bad --tenant '"@ + t + "', expected tenant=database"@
}

fn split_tenant(t: &str) -> (r: Option<(String, String)>)
    ensures
        match r {
            Some((cn, db)) => tenant_pair(t@) == Some((cn@, db@)),
            None => tenant_pair(t@) is None,
        },
{
    proof {
        reveal_strlit("=");
    }
    match find(t, "=") {
        Some(i) => {
            let n: usize = t.unicode_len();
            let cn: &str = t.substring_char(0, i);
            let db: &str = t.substring_char(i + 1, n);
            assert(cn@ =~= t@.take(i as int));
            assert(db@ =~= t@.skip(i + 1));
            Some((cn.to_owned(), db.to_owned()))
        },
        None => None,
    }
}

/// Reads the databases of the tenants. The first text that is not `tenant=database` is an
/// error.
pub fn parse_tenants(specs: &Vec<String>) -> (r: Result<Vec<(String, String)>, String>)
    ensures
        match r {
            Ok(v) => {
                &&& forall|i: int|
                    0 <= i < specs@.len() ==> tenant_pair((#[trigger] specs@[i])@) is Some
                &&& tenants_show(v@, tenant_map(texts(specs@)))
            },
            Err(e) => exists|i: int|
                {
                    &&& 0 <= i < specs@.len()
                    &&& tenant_pair((#[trigger] specs@[i])@) is None
                    &&& e@ == bad_tenant(specs@[i]@)
                    &&& forall|k: int|
                        0 <= k < i ==> tenant_pair((#[trigger] specs@[k])@) is Some
                },
        },
{
    let mut v: Vec<(String, String)> = Vec::new();
    let ghost all = texts(specs@);
    let mut i: usize = 0;
    while i < specs.len()
        invariant
            i <= specs@.len(),
            all == texts(specs@),
            forall|k: int| 0 <= k < i ==> tenant_pair((#[trigger] specs@[k])@) is Some,
            tenants_show(v@, tenant_map(all.take(i as int))),
        decreases specs@.len() - i,
    {
        let t: &str = specs[i].as_str();
        match split_tenant(t) {
            Some((cn, db)) => {
                let ghost m = tenant_map(all.take(i as int));
                let ghost now = all.take(i + 1);
                assert(now.drop_last() =~= all.take(i as int));
                assert(now.last() == t@);
                assert(tenant_map(now) == m.insert(cn@, db@));
                put(&mut v, cn, db);
            },
            None => {
                let mut e: String = String::from_str("bad --tenant '");
                e.append(t);
                e.append("', expected tenant=database");
                assert(tenant_pair(specs@[i as int]@) is None);
                return Err(e);
            },
        }
        i = i + 1;
    }
    assert(all.take(i as int) =~= all);
    Ok(v)
}

/// Where a request of a tenant goes.
pub enum Route {
    /// To this database.
    Database(String),
    /// Nowhere: it is refused with this reply.
    Refused(Resp),
}

pub open spec fn unknown_tenant(cn: Seq<char>) -> Seq<char> {
    "unknown tenant '"@ + cn + "'"@
}

/// Whether `resp` tells of an error and of nothing else.
pub open spec fn tells(resp: Resp, error: Seq<char>) -> bool {
    &&& resp.error is Some
    &&& resp.error->0@ == error
    &&& resp.rows == 0
    &&& resp.upserts == 0
    &&& resp.deletes == 0
}

/// Finds the database of a tenant. A tenant that is not known is refused.
pub fn route(tenants: &Vec<(String, String)>, cn: &str) -> (r: Route)
    requires
        distinct_names(tenants@),
    ensures
        match lookup(tenants@, cn@) {
            Some(db) => match r {
                Route::Database(d) => d@ == db@,
                Route::Refused(_) => false,
            },
            None => match r {
                Route::Database(_) => false,
                Route::Refused(resp) => tells(resp, unknown_tenant(cn@)),
            },
        },
{
    match position(tenants, cn) {
        Some(i) => Route::Database(tenants[i].1.clone()),
        None => {
            let mut e: String = String::from_str("unknown tenant '");
            e.append(cn);
            e.append("'");
            Route::Refused(Resp::err(e))
        },
    }
}

/// The password for the database: the option, or what the environment has where it is
/// empty.
pub fn choose_password(option: &str, environment: Option<String>) -> (r: String)
    ensures
        r@ == if option@.len() > 0 {
            option@
        } else {
            match environment {
                Some(p) => p@,
                None => Seq::empty(),
            }
        },
{
    if option.unicode_len() > 0 {
        return option.to_owned();
    }
    match environment {
        Some(p) => p,
        None => String::new(),
    }
}

// ── Loading a table ──────────────────────────────────────────────────────────

/// What names a table in the statement that creates it.
pub open spec fn table_name(t: Seq<char>) -> Seq<char> {
    "TABLE "@ + quoted(t)
}

/// A statement that creates the table `to` in place of the table `from`.
pub open spec fn retargeted(sql: Seq<char>, from: Seq<char>, to: Seq<char>) -> Option<Seq<char>> {
    match find_from(sql, table_name(from), 0) {
        Some(i) => Some(sql.take(i) + table_name(to) + sql.skip(i + table_name(from).len())),
        None => None,
    }
}

fn name_of_table(t: &str) -> (r: String)
    ensures
        r@ == table_name(t@),
{
    let mut s: String = String::from_str("TABLE ");
    s.append(quote(t).as_str());
    s
}

/// Makes a statement that creates `from` create `to`.
pub fn retarget_create(sql: &str, from: &str, to: &str) -> (r: Option<String>)
    ensures
        match r {
            Some(s) => retargeted(sql@, from@, to@) == Some(s@),
            None => retargeted(sql@, from@, to@) is None,
        },
{
    let needle: String = name_of_table(from);
    proof {
        reveal_strlit("TABLE ");
    }
    match find(sql, needle.as_str()) {
        Some(i) => {
            let n: usize = sql.unicode_len();
            let k: usize = needle.as_str().unicode_len();
            let head: &str = sql.substring_char(0, i);
            let tail: &str = sql.substring_char(i + k, n);
            assert(head@ =~= sql@.take(i as int));
            assert(tail@ =~= sql@.skip(i + k));
            let mut s: String = head.to_owned();
            s.append(name_of_table(to).as_str());
            s.append(tail);
            Some(s)
        },
        None => None,
    }
}

/// What loading a table beside the one that is there takes.
pub struct FullPlan {
    pub pg_table: String,
    /// The table that is loaded first.
    pub staging: String,
    /// Drops what an earlier load may have left.
    pub drop_sql: String,
    pub create_sql: String,
    pub copy_sql: String,
    /// Puts the loaded table in the place of the one that is there, in one transaction.
    pub swap_sql: String,
}

pub open spec fn staging_name(pg_table: Seq<char>) -> Seq<char> {
    pg_table + "__load"@
}

pub open spec fn drop_sql(t: Seq<char>) -> Seq<char> {
    "DROP TABLE IF EXISTS "@ + quoted(t)
}

pub open spec fn copy_sql(t: Seq<char>) -> Seq<char> {
    "COPY "@ + quoted(t) + " FROM STDIN WITH (FORMAT BINARY)"@
}

pub open spec fn swap_sql(pg_table: Seq<char>, staging: Seq<char>) -> Seq<char> {
    "BEGIN; DROP TABLE IF EXISTS "@ + quoted(pg_table) + "; ALTER TABLE "@ + quoted(staging)
        + " RENAME TO "@ + quoted(pg_table) + "; COMMIT;"@
}

pub open spec fn no_staging(pg_table: Seq<char>) -> Seq<char> {
    "could not derive staging DDL for "@ + pg_table
}

/// Whether `r` is what loading the table of a request takes.
pub open spec fn full_shows(h: FullHeader, r: Result<FullPlan, String>) -> bool {
    let t = lowercase(h.table@);
    match retargeted(h.create_sql@, t, staging_name(t)) {
        None => r is Err && r->Err_0@ == no_staging(t),
        Some(ddl) => r is Ok && ({
            let p = r->Ok_0;
            &&& p.pg_table@ == t
            &&& p.staging@ == staging_name(t)
            &&& p.drop_sql@ == drop_sql(staging_name(t))
            &&& p.create_sql@ == ddl
            &&& p.copy_sql@ == copy_sql(staging_name(t))
            &&& p.swap_sql@ == swap_sql(t, staging_name(t))
        }),
    }
}

/// Works out what loading the table of a request takes.
pub fn plan_full(h: &FullHeader) -> (r: Result<FullPlan, String>)
    ensures
        full_shows(*h, r),
{
    let pg_table: String = to_lowercase(h.table.as_str());
    let mut staging: String = pg_table.clone();
    staging.append("__load");
    let create_sql: String = match retarget_create(
        h.create_sql.as_str(),
        pg_table.as_str(),
        staging.as_str(),
    ) {
        Some(s) => s,
        None => {
            let mut e: String = String::from_str("could not derive staging DDL for ");
            e.append(pg_table.as_str());
            return Err(e);
        },
    };
    let there: String = quote(pg_table.as_str());
    let beside: String = quote(staging.as_str());
    let mut drop_sql: String = String::from_str("DROP TABLE IF EXISTS ");
    drop_sql.append(beside.as_str());
    let mut copy_sql: String = String::from_str("COPY ");
    copy_sql.append(beside.as_str());
    copy_sql.append(" FROM STDIN WITH (FORMAT BINARY)");
    let mut swap_sql: String = String::from_str("BEGIN; DROP TABLE IF EXISTS ");
    swap_sql.append(there.as_str());
    swap_sql.append("; ALTER TABLE ");
    swap_sql.append(beside.as_str());
    swap_sql.append(" RENAME TO ");
    swap_sql.append(there.as_str());
    swap_sql.append("; COMMIT;");
    Ok(FullPlan { pg_table, staging, drop_sql, create_sql, copy_sql, swap_sql })
}

/// Whether the body of a load came to its end. Otherwise nothing may be swapped.
pub fn check_body(done: bool) -> (r: Result<(), String>)
    ensures
        r is Ok <==> done,
        r is Err ==> r->Err_0@ == "body ended before terminator"@,
{
    if done {
        Ok(())
    } else {
        Err(String::from_str("body ended before terminator"))
    }
}

/// The reply to a load of `rows` rows.
pub fn full_reply(rows: u64) -> (r: Resp)
    ensures
        r == (Resp { error: None, rows, upserts: 0, deletes: 0 }),
{
    Resp { error: None, rows, upserts: 0, deletes: 0 }
}

// ── Applying changes ─────────────────────────────────────────────────────────

/// Works out what applying the changes of a request takes.
pub fn plan_delta(h: DeltaHeader) -> (r: (MergeMeta, MergeRun))
    ensures
        r.0.pg_table@ == lowercase(h.table@),
        r.0.cols_csv == h.cols_csv,
        r.0.pk_csv == h.pk_csv,
        r.0.pk_col_names == h.pk_col_names,
        r.1.wf(),
        r.1.state == MergeState::Begin,
        shown_steps(r.1.steps@) == merge_steps(
            r.0,
            h.n_upserts,
            h.n_deletes,
            true,
        ),
{
    let meta: MergeMeta = MergeMeta {
        pg_table: to_lowercase(h.table.as_str()),
        cols_csv: h.cols_csv,
        pk_csv: h.pk_csv,
        pk_col_names: h.pk_col_names,
    };
    let run: MergeRun = apply_delta_streaming(&meta, h.n_upserts, h.n_deletes);
    (meta, run)
}

/// The reply to changes that were applied.
pub fn delta_reply(n_upserts: u64, n_deletes: u64) -> (r: Resp)
    ensures
        r == (Resp { error: None, rows: 0, upserts: n_upserts, deletes: n_deletes }),
{
    Resp { error: None, rows: 0, upserts: n_upserts, deletes: n_deletes }
}

/// The reply to a request that was carried out, or that failed.
pub fn answer(result: Result<Resp, String>) -> (r: Resp)
    ensures
        match result {
            Ok(resp) => r == resp,
            Err(e) => tells(r, e@),
        },
{
    match result {
        Ok(resp) => resp,
        Err(e) => Resp::err(e),
    }
}

// ── Laws ─────────────────────────────────────────────────────────────────────

proof fn lemma_find_first(s: Seq<char>, pat: Seq<char>, k: int)
    requires
        0 <= k,
        stands_at(s, pat, k),
        forall|j: int| 0 <= j < k ==> !#[trigger] stands_at(s, pat, j),
    ensures
        find_from(s, pat, 0) == Some(k),
{
    lemma_find_bounds(s, pat, 0);
}

/// A statement that creates a table can always be made to create another one: the very
/// statement that creates the other one.
pub proof fn law_created_table_is_retargeted(
    from: Seq<char>,
    to: Seq<char>,
    unlogged: bool,
    cols: Seq<(usize, Seq<char>)>,
    descs: Seq<Desc>,
    pks: Seq<Seq<char>>,
)
    ensures
        retargeted(create_sql(from, unlogged, cols, descs, pks), from, to) == Some(
            create_sql(to, unlogged, cols, descs, pks),
        ),
{
    reveal_strlit("CREATE ");
    reveal_strlit("UNLOGGED ");
    reveal_strlit("");
    reveal_strlit("TABLE ");
    let s = create_sql(from, unlogged, cols, descs, pks);
    let t = create_sql(to, unlogged, cols, descs, pks);
    let kw = if unlogged {
        "UNLOGGED "@
    } else {
        ""@
    };
    let head = "CREATE "@ + kw;
    let k = head.len() as int;
    let pat = table_name(from);
    let rest = s.skip(k + pat.len());
    assert(s.subrange(k, k + pat.len()) =~= pat);
    assert(s.take(k) =~= head);
    assert forall|j: int| 0 <= j < k implies !#[trigger] stands_at(s, pat, j) by {
        if stands_at(s, pat, j) {
            let w = s.subrange(j, j + pat.len());
            assert(w[0] == 'T' && w[1] == 'A');
            assert(s[j] == 'T' && s[j + 1] == 'A');
            assert(s[j] == head[j]);
            assert(head[4] == 'T' && s[5] == 'E');
        }
    }
    lemma_find_first(s, pat, k);
    assert(t =~= head + table_name(to) + rest);
}

/// A table is loaded beside the one that is there: the table that is loaded has another
/// name, and of the statements only the swap names the one that is there.
pub proof fn law_load_is_beside(h: FullHeader, p: FullPlan)
    requires
        full_shows(h, Ok(p)),
    ensures
        p.staging@ != p.pg_table@,
        p.drop_sql@ == drop_sql(p.staging@),
        p.copy_sql@ == copy_sql(p.staging@),
        retargeted(h.create_sql@, p.pg_table@, p.staging@) == Some(p.create_sql@),
{
    reveal_strlit("__load");
    assert(p.staging@.len() == p.pg_table@.len() + 6);
}

} // verus!
