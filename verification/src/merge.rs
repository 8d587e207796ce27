//! How a delta is applied to a target table in PostgreSQL.
//!
//! The changed rows and the deleted keys are copied into two temporary tables. Rows with
//! a deleted key are removed from the target, and the changed rows are merged into it.
//! All of it happens in one transaction.
use crate::text::{join, joined, parts, quoted, remove_char, same_text, split, texts, without_char};
use crate::wire::{law_prefixed_round_trip, prefixed, prefixed_bytes};
use vstd::prelude::*;
use vstd::string::StringExecFns;

verus! {

/// What the merge needs to know of the target table.
pub struct MergeMeta {
    /// The name of the target table in small letters.
    pub pg_table: String,
    /// The quoted columns, separated by a comma and a blank.
    pub cols_csv: String,
    /// The quoted columns of the key, separated by a comma and a blank.
    pub pk_csv: String,
    /// The quoted columns of the key.
    pub pk_col_names: Vec<String>,
}

/// How long the phases of a merge took.
#[derive(Clone, Copy)]
pub struct ApplyTiming {
    pub setup_ns: u64,
    pub copy_start_ns: u64,
    pub copy_finish_ns: u64,
    pub del_copy_ns: u64,
    pub delete_sql_ns: u64,
    pub upsert_sql_ns: u64,
    pub cleanup_ns: u64,
    pub commit_ns: u64,
}

impl Default for ApplyTiming {
    fn default() -> (r: Self)
        ensures
            r == (ApplyTiming {
                setup_ns: 0,
                copy_start_ns: 0,
                copy_finish_ns: 0,
                del_copy_ns: 0,
                delete_sql_ns: 0,
                upsert_sql_ns: 0,
                cleanup_ns: 0,
                commit_ns: 0,
            }),
    {
        ApplyTiming {
            setup_ns: 0,
            copy_start_ns: 0,
            copy_finish_ns: 0,
            del_copy_ns: 0,
            delete_sql_ns: 0,
            upsert_sql_ns: 0,
            cleanup_ns: 0,
            commit_ns: 0,
        }
    }
}

// ── The merge statement ──────────────────────────────────────────────────────

/// The columns that are not part of the key, in their order.
pub open spec fn non_key(cols: Seq<Seq<char>>, pks: Seq<Seq<char>>) -> Seq<Seq<char>>
    decreases cols.len(),
{
    if cols.len() == 0 {
        Seq::empty()
    } else if pks.contains(cols.last()) {
        non_key(cols.drop_last(), pks)
    } else {
        non_key(cols.drop_last(), pks).push(cols.last())
    }
}

/// The assignment that takes a column from the row that was to be inserted.
pub open spec fn assignment(col: Seq<char>) -> Seq<char> {
    col + " = EXCLUDED."@ + col
}

/// The assignments of all columns that are not part of the key.
pub open spec fn assignments(meta: MergeMeta) -> Seq<Seq<char>> {
    non_key(parts(meta.cols_csv@, ", "@), texts(meta.pk_col_names@)).map_values(
        |c: Seq<char>| assignment(c),
    )
}

/// What a merge statement says up to the action on a conflict.
pub open spec fn insert_head(meta: MergeMeta, src: Seq<char>) -> Seq<char> {
    "INSERT INTO \""@ + meta.pg_table@ + "\" ("@ + meta.cols_csv@ + ") SELECT "@ + meta.cols_csv@
        + " FROM \""@ + src + "\" ON CONFLICT ("@ + meta.pk_csv@
}

/// The statement that merges the table `src` into the target. Where every column is part
/// of the key, there is nothing to update.
pub open spec fn upsert_sql(meta: MergeMeta, src: Seq<char>) -> Seq<char> {
    if assignments(meta).len() == 0 {
        insert_head(meta, src) + ") DO NOTHING"@
    } else {
        insert_head(meta, src) + ") DO UPDATE SET "@ + joined(assignments(meta), ", "@)
    }
}

fn is_among(name: &str, names: &Vec<String>) -> (r: bool)
    ensures
        r == texts(names@).contains(name@),
{
    let mut i: usize = 0;
    while i < names.len()
        invariant
            i <= names@.len(),
            forall|k: int| 0 <= k < i ==> #[trigger] texts(names@)[k] != name@,
        decreases names@.len() - i,
    {
        if same_text(name, names[i].as_str()) {
            assert(texts(names@)[i as int] == name@);
            return true;
        }
        i = i + 1;
    }
    assert(texts(names@).len() == names@.len());
    false
}

/// Builds the statement that merges the table `src` into the target.
pub fn build_upsert_sql(meta: &MergeMeta, src: &str) -> (r: String)
    ensures
        r@ == upsert_sql(*meta, src@),
{
    proof {
        reveal_strlit(", ");
    }
    let cols: Vec<String> = split(meta.cols_csv.as_str(), ", ");
    let mut updates: Vec<String> = Vec::new();
    let ghost pks = texts(meta.pk_col_names@);
    let ghost all = texts(cols@);
    let mut i: usize = 0;
    assert(texts(updates@) =~= non_key(all.take(0), pks).map_values(
        |c: Seq<char>| assignment(c),
    ));
    while i < cols.len()
        invariant
            i <= cols@.len(),
            all == texts(cols@),
            pks == texts(meta.pk_col_names@),
            texts(updates@) == non_key(all.take(i as int), pks).map_values(
                |c: Seq<char>| assignment(c),
            ),
        decreases cols@.len() - i,
    {
        proof {
            assert(all.take(i + 1).drop_last() =~= all.take(i as int));
            assert(all.take(i + 1).last() == cols@[i as int]@);
        }
        if !is_among(cols[i].as_str(), &meta.pk_col_names) {
            let ghost before = texts(updates@);
            let mut s: String = cols[i].clone();
            s.append(" = EXCLUDED.");
            s.append(cols[i].as_str());
            updates.push(s);
            proof {
                assert(texts(updates@) =~= before.push(s@));
                assert(texts(updates@) =~= non_key(all.take(i + 1), pks).map_values(
                    |c: Seq<char>| assignment(c),
                ));
            }
        }
        i = i + 1;
    }
    proof {
        assert(all.take(i as int) =~= all);
        assert(texts(updates@).len() == updates@.len());
    }
    let mut sql: String = String::from_str("INSERT INTO \"");
    sql.append(meta.pg_table.as_str());
    sql.append("\" (");
    sql.append(meta.cols_csv.as_str());
    sql.append(") SELECT ");
    sql.append(meta.cols_csv.as_str());
    sql.append(" FROM \"");
    sql.append(src);
    sql.append("\" ON CONFLICT (");
    sql.append(meta.pk_csv.as_str());
    if updates.len() == 0 {
        sql.append(") DO NOTHING");
    } else {
        sql.append(") DO UPDATE SET ");
        let list: String = join(&updates, ", ");
        sql.append(list.as_str());
    }
    sql
}

/// No column of the key is among those that are updated, and every other column is.
pub proof fn law_key_is_not_updated(cols: Seq<Seq<char>>, pks: Seq<Seq<char>>, col: Seq<char>)
    ensures
        non_key(cols, pks).contains(col) <==> cols.contains(col) && !pks.contains(col),
    decreases cols.len(),
{
    if cols.len() > 0 {
        let front = cols.drop_last();
        law_key_is_not_updated(front, pks, col);
        let before = non_key(front, pks);
        let now = non_key(cols, pks);
        if front.contains(col) {
            let i = choose|i: int| 0 <= i < front.len() && front[i] == col;
            assert(cols[i] == col);
        }
        if cols.contains(col) && col != cols.last() {
            let i = choose|i: int| 0 <= i < cols.len() && cols[i] == col;
            assert(front[i] == col);
        }
        if before.contains(col) {
            let i = choose|i: int| 0 <= i < before.len() && before[i] == col;
            assert(now[i] == col);
        }
        if now.contains(col) && col != cols.last() {
            let i = choose|i: int| 0 <= i < now.len() && now[i] == col;
            assert(before[i] == col);
        }
        if col == cols.last() {
            assert(cols[cols.len() - 1] == col);
            if !pks.contains(col) {
                assert(now[before.len() as int] == col);
            }
        }
    }
}

/// Where every column is part of the key, the merge updates nothing.
pub proof fn law_all_key_does_nothing(meta: MergeMeta, src: Seq<char>)
    requires
        forall|i: int|
            0 <= i < parts(meta.cols_csv@, ", "@).len() ==> texts(meta.pk_col_names@).contains(
                #[trigger] parts(meta.cols_csv@, ", "@)[i],
            ),
    ensures
        upsert_sql(meta, src) == insert_head(meta, src) + ") DO NOTHING"@,
{
    let cols = parts(meta.cols_csv@, ", "@);
    let rest = non_key(cols, texts(meta.pk_col_names@));
    if rest.len() > 0 {
        assert(rest.contains(rest[0]));
        law_key_is_not_updated(cols, texts(meta.pk_col_names@), rest[0]);
        let i = choose|i: int| 0 <= i < cols.len() && cols[i] == rest[0];
        assert(texts(meta.pk_col_names@).contains(cols[i]));
    }
}

// ── The steps of a merge ─────────────────────────────────────────────────────

/// What the time of a step is booked on.
#[derive(Debug, Clone, Copy, PartialEq, Eq, Structural)]
pub enum Phase {
    Setup,
    Delete,
    Upsert,
    Cleanup,
}

/// A step between the start and the end of the transaction.
pub enum MergeStep {
    /// Executes a statement; the merge goes on if it fails and is not required.
    Execute { sql: String, required: bool, phase: Phase },
    /// Copies the changed rows with a `COPY` statement.
    CopyUpserts(String),
    /// Copies the deleted keys with a `COPY` statement.
    CopyDeletes(String),
    /// Reads the deleted keys from the connection and drops them.
    DrainDeletes,
}

/// A step with the text of its statement.
pub enum StepView {
    Execute(Seq<char>, bool, Phase),
    CopyUpserts(Seq<char>),
    CopyDeletes(Seq<char>),
    DrainDeletes,
}

impl MergeStep {
    pub open spec fn shown(self) -> StepView {
        match self {
            MergeStep::Execute { sql, required, phase } => StepView::Execute(
                sql@,
                required,
                phase,
            ),
            MergeStep::CopyUpserts(s) => StepView::CopyUpserts(s@),
            MergeStep::CopyDeletes(s) => StepView::CopyDeletes(s@),
            MergeStep::DrainDeletes => StepView::DrainDeletes,
        }
    }

    /// Whether a failure of the step ends the merge.
    pub open spec fn is_required(self) -> bool {
        match self {
            MergeStep::Execute { required, .. } => required,
            _ => true,
        }
    }

    pub fn required(&self) -> (r: bool)
        ensures
            r == self.is_required(),
    {
        match self {
            MergeStep::Execute { required, .. } => *required,
            _ => true,
        }
    }
}

pub open spec fn shown_steps(v: Seq<MergeStep>) -> Seq<StepView> {
    v.map_values(|s: MergeStep| s.shown())
}

/// The temporary table of the changed rows.
pub open spec fn delta_table(meta: MergeMeta) -> Seq<char> {
    "_fdb_delta_"@ + without_char(meta.pg_table@, '"')
}

/// The temporary table of the deleted keys.
pub open spec fn delete_table(meta: MergeMeta) -> Seq<char> {
    "_fdb_del_"@ + without_char(meta.pg_table@, '"')
}

pub open spec fn drop_sql(table: Seq<char>) -> Seq<char> {
    "DROP TABLE IF EXISTS \""@ + table + "\""@
}

pub open spec fn create_delta_sql(meta: MergeMeta) -> Seq<char> {
    "CREATE TEMP TABLE \""@ + delta_table(meta) + "\" (LIKE \""@ + meta.pg_table@ + "\")"@
}

pub open spec fn create_delete_sql(meta: MergeMeta) -> Seq<char> {
    "CREATE TEMP TABLE \""@ + delete_table(meta) + "\" AS SELECT "@ + meta.pk_csv@ + " FROM \""@
        + meta.pg_table@ + "\" WHERE false"@
}

pub open spec fn copy_sql(table: Seq<char>, cols: Seq<char>) -> Seq<char> {
    "COPY \""@ + table + "\" ("@ + cols + ") FROM STDIN WITH (FORMAT BINARY)"@
}

/// The condition that a column of the key is equal in the target and among the deleted
/// keys.
pub open spec fn key_match(meta: MergeMeta, col: Seq<char>) -> Seq<char> {
    "\""@ + meta.pg_table@ + "\"."@ + col + " = \""@ + delete_table(meta) + "\"."@ + col
}

pub open spec fn delete_sql(meta: MergeMeta) -> Seq<char> {
    "DELETE FROM \""@ + meta.pg_table@ + "\" USING \""@ + delete_table(meta) + "\" WHERE "@
        + joined(
        texts(meta.pk_col_names@).map_values(|c: Seq<char>| key_match(meta, c)),
        " AND "@,
    )
}

/// What is done about deleted rows. A connection that carries the keys even where there
/// are none (`framed`) has to be read on.
pub open spec fn delete_steps(meta: MergeMeta, n_deletes: u64, framed: bool) -> Seq<StepView> {
    if n_deletes > 0 {
        seq![
            StepView::CopyDeletes(copy_sql(delete_table(meta), meta.pk_csv@)),
            StepView::Execute(delete_sql(meta), true, Phase::Delete),
        ]
    } else if framed {
        seq![StepView::DrainDeletes]
    } else {
        Seq::empty()
    }
}

/// What is done about changed rows once they are copied.
pub open spec fn upsert_steps(meta: MergeMeta, n_upserts: u64) -> Seq<StepView> {
    if n_upserts > 0 {
        seq![StepView::Execute(upsert_sql(meta, delta_table(meta)), true, Phase::Upsert)]
    } else {
        Seq::empty()
    }
}

/// The steps before the deleted rows.
pub open spec fn setup_steps(meta: MergeMeta) -> Seq<StepView> {
    seq![
        StepView::Execute(drop_sql(delta_table(meta)), false, Phase::Setup),
        StepView::Execute(drop_sql(delete_table(meta)), false, Phase::Setup),
        StepView::Execute(create_delta_sql(meta), true, Phase::Setup),
        StepView::Execute(create_delete_sql(meta), true, Phase::Setup),
        StepView::CopyUpserts(copy_sql(delta_table(meta), meta.cols_csv@)),
    ]
}

pub open spec fn cleanup_steps(meta: MergeMeta) -> Seq<StepView> {
    seq![
        StepView::Execute(drop_sql(delta_table(meta)), false, Phase::Cleanup),
        StepView::Execute(drop_sql(delete_table(meta)), false, Phase::Cleanup),
    ]
}

/// All steps of a merge.
pub open spec fn merge_steps(
    meta: MergeMeta,
    n_upserts: u64,
    n_deletes: u64,
    framed: bool,
) -> Seq<StepView> {
    setup_steps(meta) + delete_steps(meta, n_deletes, framed) + upsert_steps(meta, n_upserts)
        + cleanup_steps(meta)
}

fn text_drop(table: &str) -> (r: String)
    ensures
        r@ == drop_sql(table@),
{
    let mut s: String = String::from_str("DROP TABLE IF EXISTS \"");
    s.append(table);
    s.append("\"");
    s
}

fn text_copy(table: &str, cols: &str) -> (r: String)
    ensures
        r@ == copy_sql(table@, cols@),
{
    let mut s: String = String::from_str("COPY \"");
    s.append(table);
    s.append("\" (");
    s.append(cols);
    s.append(") FROM STDIN WITH (FORMAT BINARY)");
    s
}

fn text_delete(meta: &MergeMeta, del_tmp: &str) -> (r: String)
    requires
        del_tmp@ == delete_table(*meta),
    ensures
        r@ == delete_sql(*meta),
{
    let mut conds: Vec<String> = Vec::new();
    let ghost want = texts(meta.pk_col_names@).map_values(|c: Seq<char>| key_match(*meta, c));
    let mut i: usize = 0;
    while i < meta.pk_col_names.len()
        invariant
            i <= meta.pk_col_names@.len(),
            del_tmp@ == delete_table(*meta),
            want == texts(meta.pk_col_names@).map_values(|c: Seq<char>| key_match(*meta, c)),
            texts(conds@) =~= want.take(i as int),
        decreases meta.pk_col_names@.len() - i,
    {
        let cn: &str = meta.pk_col_names[i].as_str();
        let mut s: String = String::from_str("\"");
        s.append(meta.pg_table.as_str());
        s.append("\".");
        s.append(cn);
        s.append(" = \"");
        s.append(del_tmp);
        s.append("\".");
        s.append(cn);
        let ghost before = texts(conds@);
        conds.push(s);
        proof {
            assert(want[i as int] == s@);
            assert(texts(conds@) =~= before.push(s@));
        }
        i = i + 1;
    }
    assert(texts(conds@) =~= want);
    let clause: String = join(&conds, " AND ");
    let mut sql: String = String::from_str("DELETE FROM \"");
    sql.append(meta.pg_table.as_str());
    sql.append("\" USING \"");
    sql.append(del_tmp);
    sql.append("\" WHERE ");
    sql.append(clause.as_str());
    sql
}

fn push_step(v: &mut Vec<MergeStep>, s: MergeStep)
    ensures
        final(v)@ == old(v)@.push(s),
        shown_steps(final(v)@) == shown_steps(old(v)@).push(s.shown()),
{
    v.push(s);
    assert(shown_steps(v@) =~= shown_steps(old(v)@).push(s.shown()));
}

/// Plans a merge.
fn plan_merge(meta: &MergeMeta, n_upserts: u64, n_deletes: u64, framed: bool) -> (r: Vec<
    MergeStep,
>)
    ensures
        shown_steps(r@) == merge_steps(*meta, n_upserts, n_deletes, framed),
{
    let bare: String = remove_char(meta.pg_table.as_str(), '"');
    let mut delta_tmp: String = String::from_str("_fdb_delta_");
    delta_tmp.append(bare.as_str());
    let mut del_tmp: String = String::from_str("_fdb_del_");
    del_tmp.append(bare.as_str());
    let mut v: Vec<MergeStep> = Vec::new();
    push_step(
        &mut v,
        MergeStep::Execute {
            sql: text_drop(delta_tmp.as_str()),
            required: false,
            phase: Phase::Setup,
        },
    );
    push_step(
        &mut v,
        MergeStep::Execute {
            sql: text_drop(del_tmp.as_str()),
            required: false,
            phase: Phase::Setup,
        },
    );
    let mut create: String = String::from_str("CREATE TEMP TABLE \"");
    create.append(delta_tmp.as_str());
    create.append("\" (LIKE \"");
    create.append(meta.pg_table.as_str());
    create.append("\")");
    push_step(&mut v, MergeStep::Execute { sql: create, required: true, phase: Phase::Setup });
    let mut create: String = String::from_str("CREATE TEMP TABLE \"");
    create.append(del_tmp.as_str());
    create.append("\" AS SELECT ");
    create.append(meta.pk_csv.as_str());
    create.append(" FROM \"");
    create.append(meta.pg_table.as_str());
    create.append("\" WHERE false");
    push_step(&mut v, MergeStep::Execute { sql: create, required: true, phase: Phase::Setup });
    push_step(
        &mut v,
        MergeStep::CopyUpserts(text_copy(delta_tmp.as_str(), meta.cols_csv.as_str())),
    );
    assert(shown_steps(v@) =~= setup_steps(*meta));
    if n_deletes > 0 {
        push_step(
            &mut v,
            MergeStep::CopyDeletes(text_copy(del_tmp.as_str(), meta.pk_csv.as_str())),
        );
        push_step(
            &mut v,
            MergeStep::Execute {
                sql: text_delete(meta, del_tmp.as_str()),
                required: true,
                phase: Phase::Delete,
            },
        );
    } else if framed {
        push_step(&mut v, MergeStep::DrainDeletes);
    }
    assert(shown_steps(v@) =~= setup_steps(*meta) + delete_steps(*meta, n_deletes, framed));
    if n_upserts > 0 {
        push_step(
            &mut v,
            MergeStep::Execute {
                sql: build_upsert_sql(meta, delta_tmp.as_str()),
                required: true,
                phase: Phase::Upsert,
            },
        );
    }
    assert(shown_steps(v@) =~= setup_steps(*meta) + delete_steps(*meta, n_deletes, framed)
        + upsert_steps(*meta, n_upserts));
    push_step(
        &mut v,
        MergeStep::Execute {
            sql: text_drop(delta_tmp.as_str()),
            required: false,
            phase: Phase::Cleanup,
        },
    );
    push_step(
        &mut v,
        MergeStep::Execute {
            sql: text_drop(del_tmp.as_str()),
            required: false,
            phase: Phase::Cleanup,
        },
    );
    assert(shown_steps(v@) =~= merge_steps(*meta, n_upserts, n_deletes, framed));
    v
}

// ── Running a merge ──────────────────────────────────────────────────────────

/// What is to be done next.
#[derive(Debug, Clone, Copy, PartialEq, Eq, Structural)]
pub enum MergeState {
    /// Start the transaction.
    Begin,
    /// Take the step with this number.
    Step(usize),
    Commit,
    Rollback,
    /// Nothing; the merge was applied or not.
    Done(bool),
}

/// A merge under way.
pub struct MergeRun {
    pub steps: Vec<MergeStep>,
    pub state: MergeState,
}

impl MergeState {
    /// What follows when the present action went well or not.
    pub open spec fn after(self, steps: Seq<MergeStep>, ok: bool) -> MergeState {
        match self {
            MergeState::Begin => if !ok {
                MergeState::Done(false)
            } else if steps.len() == 0 {
                MergeState::Commit
            } else {
                MergeState::Step(0)
            },
            MergeState::Step(i) => if !ok && steps[i as int].is_required() {
                MergeState::Rollback
            } else if i + 1 < steps.len() {
                MergeState::Step((i + 1) as usize)
            } else {
                MergeState::Commit
            },
            MergeState::Commit => MergeState::Done(ok),
            MergeState::Rollback => MergeState::Done(false),
            MergeState::Done(applied) => MergeState::Done(applied),
        }
    }

    /// What follows after several actions.
    pub open spec fn after_all(self, steps: Seq<MergeStep>, oks: Seq<bool>) -> MergeState
        decreases oks.len(),
    {
        if oks.len() == 0 {
            self
        } else {
            self.after_all(steps, oks.drop_last()).after(steps, oks.last())
        }
    }
}

impl MergeRun {
    pub open spec fn wf(self) -> bool {
        match self.state {
            MergeState::Step(i) => i < self.steps@.len(),
            _ => true,
        }
    }

    /// Takes note of how the present action went.
    pub fn advance(&mut self, ok: bool)
        requires
            old(self).wf(),
        ensures
            final(self).wf(),
            final(self).steps == old(self).steps,
            final(self).state == old(self).state.after(old(self).steps@, ok),
    {
        let n: usize = self.steps.len();
        self.state = match self.state {
            MergeState::Begin => if !ok {
                MergeState::Done(false)
            } else if n == 0 {
                MergeState::Commit
            } else {
                MergeState::Step(0)
            },
            MergeState::Step(i) => if !ok && self.steps[i].required() {
                MergeState::Rollback
            } else if i + 1 < n {
                MergeState::Step(i + 1)
            } else {
                MergeState::Commit
            },
            MergeState::Commit => MergeState::Done(ok),
            MergeState::Rollback => MergeState::Done(false),
            MergeState::Done(applied) => MergeState::Done(applied),
        };
    }
}

/// A merge of a delta whose rows and keys are at hand.
pub fn apply_delta(meta: &MergeMeta, n_upserts: u64, n_deletes: u64) -> (r: MergeRun)
    ensures
        r.wf(),
        r.state == MergeState::Begin,
        shown_steps(r.steps@) == merge_steps(*meta, n_upserts, n_deletes, false),
{
    MergeRun { steps: plan_merge(meta, n_upserts, n_deletes, false), state: MergeState::Begin }
}

/// A merge of a delta that is read from a connection: the rows and the keys are both
/// there, one behind the other, even where they are empty.
pub fn apply_delta_streaming(meta: &MergeMeta, n_upserts: u64, n_deletes: u64) -> (r: MergeRun)
    ensures
        r.wf(),
        r.state == MergeState::Begin,
        shown_steps(r.steps@) == merge_steps(*meta, n_upserts, n_deletes, true),
{
    MergeRun { steps: plan_merge(meta, n_upserts, n_deletes, true), state: MergeState::Begin }
}

/// Whether every action of a merge that has to go well did: the start of the transaction
/// (first), the required steps, and the commit (last).
pub open spec fn all_required_ok(steps: Seq<MergeStep>, oks: Seq<bool>) -> bool {
    &&& oks[0]
    &&& oks[steps.len() as int + 1]
    &&& forall|i: int| 0 <= i < steps.len() && (#[trigger] steps[i]).is_required() ==> oks[i + 1]
}

/// A merge is applied exactly if everything that has to go well does: no half of a delta
/// is ever committed.
pub proof fn law_applied_iff_all_ok(steps: Seq<MergeStep>, oks: Seq<bool>)
    requires
        oks.len() == steps.len() + 2,
        steps.len() < usize::MAX,
    ensures
        MergeState::Begin.after_all(steps, oks) == MergeState::Done(true) <==> all_required_ok(
            steps,
            oks,
        ),
        all_required_ok(steps, oks) || MergeState::Begin.after_all(steps, oks) == MergeState::Done(
            false,
        ),
{
    lemma_merge_state(steps, oks, steps.len() as int + 2);
    assert(oks.take(steps.len() as int + 2) =~= oks);
}

/// Where a merge stands after `n` actions.
proof fn lemma_merge_state(steps: Seq<MergeStep>, oks: Seq<bool>, n: int)
    requires
        oks.len() == steps.len() + 2,
        steps.len() < usize::MAX,
        0 <= n <= steps.len() + 2,
    ensures
        ({
            let s = MergeState::Begin.after_all(steps, oks.take(n));
            let good = n >= 1 ==> oks[0] && forall|i: int|
                0 <= i < steps.len() && i + 1 < n && (#[trigger] steps[i]).is_required() ==> oks[i
                    + 1];
            if n == 0 {
                s == MergeState::Begin
            } else if good {
                if n <= steps.len() {
                    s == MergeState::Step((n - 1) as usize)
                } else if n == steps.len() + 1 {
                    s == MergeState::Commit
                } else {
                    s == MergeState::Done(oks[n - 1])
                }
            } else {
                s == MergeState::Done(false) || (s == MergeState::Rollback && n <= steps.len()
                    + 1)
            }
        }),
    decreases n,
{
    if n > 0 {
        lemma_merge_state(steps, oks, n - 1);
        assert(oks.take(n).drop_last() =~= oks.take(n - 1));
        assert(oks.take(n).last() == oks[n - 1]);
        if 2 <= n <= steps.len() + 1 {
            let i = n - 2;
            assert(steps[i].is_required() ==> steps[i].is_required());
        }
    }
}

/// A failed step that is required is followed by a rollback.
pub proof fn law_failure_rolls_back(steps: Seq<MergeStep>, i: usize)
    requires
        i < steps.len(),
        steps[i as int].is_required(),
    ensures
        MergeState::Step(i).after(steps, false) == MergeState::Rollback,
        MergeState::Rollback.after(steps, true) == MergeState::Done(false),
        MergeState::Rollback.after(steps, false) == MergeState::Done(false),
{
}

/// Whether a step reads a body from the connection.
pub open spec fn reads_body(s: StepView) -> bool {
    s is CopyUpserts || s is CopyDeletes || s is DrainDeletes
}

/// What a server is told: a statement, or a `COPY` statement and its data.
pub enum Told {
    Sql(Seq<char>),
    Copy(Seq<char>, Seq<u8>),
}

/// What a server is told by a merge whose rows and keys are at hand, if every step goes well.
pub open spec fn told(steps: Seq<StepView>, upserts: Seq<u8>, deletes: Seq<u8>) -> Seq<Told>
    decreases steps.len(),
{
    if steps.len() == 0 {
        Seq::empty()
    } else {
        let rest = told(steps.drop_first(), upserts, deletes);
        match steps[0] {
            StepView::Execute(sql, _, _) => seq![Told::Sql(sql)] + rest,
            StepView::CopyUpserts(sql) => seq![Told::Copy(sql, upserts)] + rest,
            StepView::CopyDeletes(sql) => seq![Told::Copy(sql, deletes)] + rest,
            StepView::DrainDeletes => rest,
        }
    }
}

/// What a server is told by a merge that reads its bodies from `s` at `i`, and where the
/// source then stands. `None` where a body is cut off.
pub open spec fn told_from(steps: Seq<StepView>, s: Seq<u8>, i: int) -> Option<(Seq<Told>, int)>
    decreases steps.len(),
{
    if steps.len() == 0 {
        Some((Seq::empty(), i))
    } else {
        let (first, j) = match steps[0] {
            StepView::Execute(sql, _, _) => (Some(seq![Told::Sql(sql)]), i),
            StepView::CopyUpserts(sql) | StepView::CopyDeletes(sql) => match prefixed(s, i) {
                Ok((body, j)) => (Some(seq![Told::Copy(sql, body)]), j),
                Err(_) => (None, i),
            },
            StepView::DrainDeletes => match prefixed(s, i) {
                Ok((_, j)) => (Some(Seq::empty()), j),
                Err(_) => (None, i),
            },
        };
        match (first, told_from(steps.drop_first(), s, j)) {
            (Some(t), Some((rest, k))) => Some((t + rest, k)),
            _ => None,
        }
    }
}

proof fn lemma_told_join(a: Seq<StepView>, b: Seq<StepView>, upserts: Seq<u8>, deletes: Seq<u8>)
    ensures
        told(a + b, upserts, deletes) == told(a, upserts, deletes) + told(b, upserts, deletes),
    decreases a.len(),
{
    if a.len() == 0 {
        assert(a + b =~= b);
        assert(told(a + b, upserts, deletes) =~= told(a, upserts, deletes) + told(
            b,
            upserts,
            deletes,
        ));
    } else {
        assert((a + b).drop_first() =~= a.drop_first() + b);
        lemma_told_join(a.drop_first(), b, upserts, deletes);
        assert(told(a + b, upserts, deletes) =~= told(a, upserts, deletes) + told(
            b,
            upserts,
            deletes,
        ));
    }
}

proof fn lemma_told_from_join(a: Seq<StepView>, b: Seq<StepView>, s: Seq<u8>, i: int)
    requires
        told_from(a, s, i) is Some,
        told_from(b, s, (told_from(a, s, i)->0).1) is Some,
    ensures
        ({
            let (x, j) = told_from(a, s, i)->0;
            let (y, k) = told_from(b, s, j)->0;
            told_from(a + b, s, i) == Some((x + y, k))
        }),
    decreases a.len(),
{
    if a.len() == 0 {
        assert(a + b =~= b);
        let y = (told_from(b, s, i)->0).0;
        assert(Seq::<Told>::empty() + y =~= y);
    } else {
        assert((a + b).drop_first() =~= a.drop_first() + b);
        let j = match a[0] {
            StepView::Execute(_, _, _) => i,
            _ => prefixed(s, i)->Ok_0.1,
        };
        let t = match a[0] {
            StepView::Execute(sql, _, _) => seq![Told::Sql(sql)],
            StepView::CopyUpserts(sql) | StepView::CopyDeletes(sql) => seq![
                Told::Copy(sql, prefixed(s, i)->Ok_0.0),
            ],
            StepView::DrainDeletes => Seq::empty(),
        };
        lemma_told_from_join(a.drop_first(), b, s, j);
        let (x, m) = told_from(a.drop_first(), s, j)->0;
        let (y, k) = told_from(b, s, m)->0;
        assert(t + x + y =~= t + (x + y));
    }
}

/// Steps that read nothing tell the same either way.
proof fn lemma_told_plain(steps: Seq<StepView>, upserts: Seq<u8>, deletes: Seq<u8>, s: Seq<u8>, i: int)
    requires
        forall|k: int| 0 <= k < steps.len() ==> (#[trigger] steps[k]) is Execute,
    ensures
        told_from(steps, s, i) == Some((told(steps, upserts, deletes), i)),
    decreases steps.len(),
{
    if steps.len() > 0 {
        assert(steps[0] is Execute);
        let rest = steps.drop_first();
        assert forall|k: int| 0 <= k < rest.len() implies (#[trigger] rest[k]) is Execute by {
            assert(rest[k] == steps[k + 1]);
        }
        lemma_told_plain(rest, upserts, deletes, s, i);
    }
}

/// The two ways to merge a delta come to the same: read from a connection on which the rows
/// and the keys stand one behind the other, a delta tells the server exactly what it tells it
/// when both are at hand, so it leaves the same table; and the connection is left behind the
/// keys, even where there are none to delete.
pub proof fn law_streamed_merge_is_buffered_merge(
    meta: MergeMeta,
    n_upserts: u64,
    n_deletes: u64,
    before: Seq<u8>,
    upserts: Seq<u8>,
    deletes: Seq<u8>,
    after: Seq<u8>,
)
    requires
        upserts.len() < 0x1_0000_0000,
        deletes.len() < 0x1_0000_0000,
    ensures
        ({
            let body = prefixed_bytes(upserts) + prefixed_bytes(deletes);
            told_from(
                merge_steps(meta, n_upserts, n_deletes, true),
                before + body + after,
                before.len() as int,
            ) == Some(
                (
                    told(merge_steps(meta, n_upserts, n_deletes, false), upserts, deletes),
                    (before + body).len() as int,
                ),
            )
        }),
{
    let body = prefixed_bytes(upserts) + prefixed_bytes(deletes);
    let s = before + body + after;
    let i = before.len() as int;
    let j = (before + prefixed_bytes(upserts)).len() as int;
    let k = (before + body).len() as int;
    law_prefixed_round_trip(before, upserts, prefixed_bytes(deletes) + after);
    assert(before + prefixed_bytes(upserts) + (prefixed_bytes(deletes) + after) =~= s);
    law_prefixed_round_trip(before + prefixed_bytes(upserts), deletes, after);
    assert(before + prefixed_bytes(upserts) + prefixed_bytes(deletes) + after =~= s);
    let setup = setup_steps(meta);
    let plain = setup.take(4);
    let copy = seq![setup[4]];
    assert(setup =~= plain + copy);
    lemma_told_plain(plain, upserts, deletes, s, i);
    assert(copy.drop_first() =~= Seq::empty());
    assert(told_from(copy.drop_first(), s, j) == Some((Seq::<Told>::empty(), j)));
    lemma_told_from_join(plain, copy, s, i);
    lemma_told_join(plain, copy, upserts, deletes);
    let sql = copy_sql(delta_table(meta), meta.cols_csv@);
    assert(copy[0] == StepView::CopyUpserts(sql));
    assert(told(copy.drop_first(), upserts, deletes) =~= Seq::empty());
    assert(told(copy, upserts, deletes) =~= seq![Told::Copy(sql, upserts)]);
    assert((told_from(copy, s, i)->0).0 =~= seq![Told::Copy(sql, upserts)]);
    assert(told_from(setup, s, i) == Some((told(setup, upserts, deletes), j)));
    let del = delete_steps(meta, n_deletes, true);
    let del_plain = delete_steps(meta, n_deletes, false);
    if n_deletes > 0 {
        let one = seq![del[0]];
        let two = seq![del[1]];
        assert(del =~= one + two);
        assert(one.drop_first() =~= Seq::empty());
        assert(told_from(one.drop_first(), s, k) == Some((Seq::<Told>::empty(), k)));
        lemma_told_plain(two, upserts, deletes, s, k);
        lemma_told_from_join(one, two, s, j);
        lemma_told_join(one, two, upserts, deletes);
        assert(told(one.drop_first(), upserts, deletes) =~= Seq::empty());
        assert((told_from(one, s, j)->0).0 =~= told(one, upserts, deletes));
    } else {
        assert(del.drop_first() =~= Seq::empty());
        assert(told_from(del.drop_first(), s, k) == Some((Seq::<Told>::empty(), k)));
        assert((told_from(del, s, j)->0).0 =~= told(del_plain, upserts, deletes));
    }
    assert(told_from(del, s, j) == Some((told(del_plain, upserts, deletes), k)));
    lemma_told_from_join(setup, del, s, i);
    lemma_told_join(setup, del_plain, upserts, deletes);
    let up = upsert_steps(meta, n_upserts);
    lemma_told_plain(up, upserts, deletes, s, k);
    lemma_told_from_join(setup + del, up, s, i);
    lemma_told_join(setup + del_plain, up, upserts, deletes);
    let clean = cleanup_steps(meta);
    lemma_told_plain(clean, upserts, deletes, s, k);
    lemma_told_from_join(setup + del + up, clean, s, i);
    lemma_told_join(setup + del_plain + up, clean, upserts, deletes);
}

/// A merge from a connection reads both bodies, the rows first, each once, whatever their
/// numbers are: the connection stays in step.
pub proof fn law_both_bodies_are_read(meta: MergeMeta, n_upserts: u64, n_deletes: u64)
    ensures
        ({
            let s = merge_steps(meta, n_upserts, n_deletes, true);
            &&& s.len() > 5
            &&& s[4] is CopyUpserts
            &&& s[5] is CopyDeletes || s[5] is DrainDeletes
            &&& forall|i: int|
                0 <= i < s.len() && i != 4 && i != 5 ==> !reads_body(#[trigger] s[i])
        }),
{
}

} // verus!
