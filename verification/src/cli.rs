//! What the command line asks for.
use crate::text::{copy_texts, lowercase, same_text, stands_at, starts_with, texts, to_lowercase};
use vstd::prelude::*;
use vstd::string::{StrSliceExecFns, StringExecFns};

verus! {

/// The options of the extractor.
#[derive(Debug)]
pub struct Args {
    pub database: Option<String>,
    pub table: Option<String>,
    pub output: Option<String>,
    pub no_progress: bool,
    pub list_tables: bool,
    pub create_table: bool,
    pub bench: bool,
    pub pg_database: Option<String>,
    pub all_tables: bool,
    pub tables: Vec<String>,
    pub pg_host: String,
    pub pg_port: u16,
    pub pg_user: String,
    pub pg_password: String,
    pub drop: bool,
    pub unlogged: bool,
    pub watch: bool,
    pub watch_interval: u32,
    pub state_file: Option<String>,
    pub debug: bool,
    pub inspect: bool,
}

/// What is missing among the options.
#[derive(Clone, Copy, PartialEq, Eq, Debug, Structural)]
pub enum CliError {
    NoDatabase,
    /// No table to inspect.
    NothingToInspect,
    /// No table to migrate.
    NothingToMigrate,
    /// No table to extract.
    NothingToExtract,
    /// No table to push.
    NothingToPush,
}

pub open spec fn cli_message(e: CliError) -> Seq<char> {
    match e {
        CliError::NoDatabase => "--database required"@,
        CliError::NothingToInspect => "--table TABLE required for --inspect"@,
        CliError::NothingToMigrate => "Provide --table TABLE, --tables T1 T2 ..., or --all-tables"@,
        CliError::NothingToExtract => "Provide --table TABLE or --list-tables"@,
        CliError::NothingToPush => "provide --table, --tables, or --all-tables"@,
    }
}

impl CliError {
    pub fn message(&self) -> (r: String)
        ensures
            r@ == cli_message(*self),
    {
        match self {
            CliError::NoDatabase => String::from_str("--database required"),
            CliError::NothingToInspect => String::from_str("--table TABLE required for --inspect"),
            CliError::NothingToMigrate => String::from_str(
                "Provide --table TABLE, --tables T1 T2 ..., or --all-tables",
            ),
            CliError::NothingToExtract => String::from_str(
                "Provide --table TABLE or --list-tables",
            ),
            CliError::NothingToPush => String::from_str(
                "provide --table, --tables, or --all-tables",
            ),
        }
    }
}

// ── What to do ───────────────────────────────────────────────────────────────

/// What a run of the extractor does.
pub enum Command {
    /// Measures the encoding of fields.
    Bench,
    /// Follows the changes of tables.
    Watch,
    /// Shows the slots of a table.
    Inspect,
    /// Shows the constraints of the table of this name.
    Constraints(String),
    /// Lists the tables.
    ListTables,
    /// Shows the statement that creates a table.
    CreateTable,
    /// Loads all tables into PostgreSQL.
    MigrateAll,
    /// Loads the named tables into PostgreSQL.
    MigrateList,
    /// Loads one table into PostgreSQL.
    Migrate,
    /// Writes the rows of a table to a file, or to the standard output.
    Extract { table: String, output: String, to_stdout: bool },
}

/// What stands before the name of a table whose constraints are to be shown.
pub open spec fn constraints_prefix() -> Seq<char> {
    "__debug_constraints:"@
}

/// What the name of a table asks for, if it asks for constraints.
pub open spec fn constraints_of(args: Args) -> Option<Seq<char>> {
    match args.table {
        Some(t) => if stands_at(t@, constraints_prefix(), 0) {
            Some(t@.skip(constraints_prefix().len() as int))
        } else {
            None
        },
        None => None,
    }
}

/// Where the rows of a table go by default.
pub open spec fn default_output(table: Seq<char>) -> Seq<char> {
    lowercase(table) + ".bin"@
}

/// Whether `r` is what the options ask for. The first of these that is asked for is done:
/// to measure, to watch, to inspect, to show constraints, to list tables, to show a
/// statement, to load into PostgreSQL, and otherwise to extract.
pub open spec fn run_shows(args: Args, r: Result<Command, CliError>) -> bool {
    if args.bench {
        r is Ok && r->Ok_0 is Bench
    } else if args.watch {
        r is Ok && r->Ok_0 is Watch
    } else if args.inspect {
        r is Ok && r->Ok_0 is Inspect
    } else if constraints_of(args) is Some {
        r is Ok && match r->Ok_0 {
            Command::Constraints(name) => name@ == constraints_of(args)->0,
            _ => false,
        }
    } else if args.list_tables {
        if args.database is None {
            r == Err::<Command, CliError>(CliError::NoDatabase)
        } else {
            r is Ok && r->Ok_0 is ListTables
        }
    } else if args.create_table {
        r is Ok && r->Ok_0 is CreateTable
    } else if args.pg_database is Some {
        if args.all_tables {
            r is Ok && r->Ok_0 is MigrateAll
        } else if args.tables@.len() > 0 {
            r is Ok && r->Ok_0 is MigrateList
        } else if args.table is None {
            r == Err::<Command, CliError>(CliError::NothingToMigrate)
        } else {
            r is Ok && r->Ok_0 is Migrate
        }
    } else if args.table is None {
        r == Err::<Command, CliError>(CliError::NothingToExtract)
    } else {
        r is Ok && match r->Ok_0 {
            Command::Extract { table, output, to_stdout } => {
                &&& table@ == args.table->0@
                &&& output@ == match args.output {
                    Some(o) => o@,
                    None => default_output(args.table->0@),
                }
                &&& to_stdout == (output@ == "-"@)
            },
            _ => false,
        }
    }
}

/// The name behind the prefix that asks for constraints.
fn constraints_name(t: &str) -> (r: Option<String>)
    ensures
        match r {
            Some(n) => stands_at(t@, constraints_prefix(), 0) && n@ == t@.skip(
                constraints_prefix().len() as int,
            ),
            None => !stands_at(t@, constraints_prefix(), 0),
        },
{
    let prefix: &str = "__debug_constraints:";
    if !starts_with(t, prefix) {
        return None;
    }
    let n: usize = prefix.unicode_len();
    let len: usize = t.unicode_len();
    let rest: &str = t.substring_char(n, len);
    assert(rest@ =~= t@.skip(n as int));
    Some(rest.to_owned())
}

/// Decides what a run of the extractor does.
pub fn run(args: &Args) -> (r: Result<Command, CliError>)
    ensures
        run_shows(*args, r),
{
    if args.bench {
        return Ok(Command::Bench);
    }
    if args.watch {
        return Ok(Command::Watch);
    }
    if args.inspect {
        return Ok(Command::Inspect);
    }
    if let Some(t) = &args.table {
        if let Some(name) = constraints_name(t.as_str()) {
            return Ok(Command::Constraints(name));
        }
    }
    if args.list_tables {
        if args.database.is_none() {
            return Err(CliError::NoDatabase);
        }
        return Ok(Command::ListTables);
    }
    if args.create_table {
        return Ok(Command::CreateTable);
    }
    if args.pg_database.is_some() {
        if args.all_tables {
            return Ok(Command::MigrateAll);
        }
        if args.tables.len() > 0 {
            return Ok(Command::MigrateList);
        }
        if args.table.is_none() {
            return Err(CliError::NothingToMigrate);
        }
        return Ok(Command::Migrate);
    }
    match &args.table {
        None => Err(CliError::NothingToExtract),
        Some(t) => {
            let output: String = match &args.output {
                Some(o) => o.clone(),
                None => {
                    let mut s: String = to_lowercase(t.as_str());
                    s.append(".bin");
                    s
                },
            };
            let to_stdout: bool = same_text(output.as_str(), "-");
            Ok(Command::Extract { table: t.clone(), output, to_stdout })
        },
    }
}

// ── Which tables ─────────────────────────────────────────────────────────────

/// Which tables are meant.
pub enum TableChoice {
    /// All that the database lists.
    All,
    /// These, in this order.
    Named(Vec<String>),
}

pub open spec fn choice_shows(
    all: bool,
    tables: Seq<Seq<char>>,
    table: Option<String>,
    r: Option<TableChoice>,
) -> bool {
    if all {
        r is Some && r->0 is All
    } else if tables.len() > 0 || table is Some {
        r is Some && match r->0 {
            TableChoice::Named(v) => texts(v@) == if tables.len() > 0 {
                tables
            } else {
                seq![table->0@]
            },
            TableChoice::All => false,
        }
    } else {
        r is None
    }
}

/// Which tables are meant: all of them, or the list, or the single one.
pub fn choose_tables(all: bool, tables: &Vec<String>, table: &Option<String>) -> (r: Option<
    TableChoice,
>)
    ensures
        choice_shows(all, texts(tables@), *table, r),
{
    if all {
        return Some(TableChoice::All);
    }
    assert(texts(tables@).len() == tables@.len());
    if tables.len() > 0 {
        return Some(TableChoice::Named(copy_texts(tables.as_slice())));
    }
    match table {
        Some(t) => {
            let mut v: Vec<String> = Vec::new();
            v.push(t.clone());
            assert(texts(v@) =~= seq![t@]);
            Some(TableChoice::Named(v))
        },
        None => None,
    }
}

// ── Watching ─────────────────────────────────────────────────────────────────

/// What a watch needs to know.
pub struct WatchPlan {
    pub db_path: String,
    pub state_path: String,
    pub interval_secs: u64,
    pub tables: TableChoice,
}

/// Where the state of a watch is kept by default.
pub open spec fn default_state(db_path: Seq<char>) -> Seq<char> {
    db_path + ".cdc.json"@
}

/// Where the state of a watch is kept.
pub fn state_path(state_file: &Option<String>, db_path: &str) -> (r: String)
    ensures
        r@ == match *state_file {
            Some(s) => s@,
            None => default_state(db_path@),
        },
{
    match state_file {
        Some(s) => s.clone(),
        None => {
            let mut s: String = db_path.to_owned();
            s.append(".cdc.json");
            s
        },
    }
}

/// How many seconds lie between two looks at the database: at least one.
pub fn interval_secs(watch_interval: u32) -> (r: u64)
    ensures
        r == if watch_interval == 0 {
            1
        } else {
            watch_interval as int
        },
{
    if watch_interval == 0 {
        1
    } else {
        watch_interval as u64
    }
}

/// What the options ask to watch: all tables where they name none.
pub fn watch(args: &Args) -> (r: Result<WatchPlan, CliError>)
    requires
        args.database is Some,
        args.pg_database is Some,
    ensures
        r is Ok,
        ({
            let p = r->Ok_0;
            let none_named = args.tables@.len() == 0 && args.table is None;
            &&& p.db_path@ == args.database->0@
            &&& p.state_path@ == match args.state_file {
                Some(s) => s@,
                None => default_state(args.database->0@),
            }
            &&& p.interval_secs == if args.watch_interval == 0 {
                1
            } else {
                args.watch_interval as int
            }
            &&& choice_shows(
                args.all_tables || none_named,
                texts(args.tables@),
                args.table,
                Some(p.tables),
            )
        }),
{
    let db_path: String = match &args.database {
        Some(d) => d.clone(),
        None => String::new(),
    };
    let state: String = state_path(&args.state_file, db_path.as_str());
    let tables: TableChoice = match choose_tables(args.all_tables, &args.tables, &args.table) {
        Some(tables) => tables,
        None => TableChoice::All,
    };
    Ok(
        WatchPlan {
            db_path,
            state_path: state,
            interval_secs: interval_secs(args.watch_interval),
            tables,
        },
    )
}

} // verus!
