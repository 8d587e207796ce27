//! What the command line asks for.
use fdb_extract::cli::{
    choose_tables, interval_secs, run, state_path, watch, Args, CliError, Command, TableChoice,
};

fn args() -> Args {
    Args {
        database: None,
        table: None,
        output: None,
        no_progress: false,
        list_tables: false,
        create_table: false,
        bench: false,
        pg_database: None,
        all_tables: false,
        tables: vec![],
        pg_host: "localhost".to_string(),
        pg_port: 5432,
        pg_user: "postgres".to_string(),
        pg_password: String::new(),
        drop: false,
        unlogged: false,
        watch: false,
        watch_interval: 5,
        state_file: None,
        debug: false,
        inspect: false,
    }
}

#[test]
fn the_first_mode_that_is_asked_for_is_done() {
    let mut a = args();
    assert!(matches!(run(&a), Err(CliError::NothingToExtract)));
    a.table = Some("Clientes".to_string());
    match run(&a) {
        Ok(Command::Extract { table, output, to_stdout }) => {
            assert_eq!((table.as_str(), output.as_str(), to_stdout), ("Clientes", "clientes.bin", false));
        }
        _ => panic!("extract"),
    }
    a.output = Some("-".to_string());
    match run(&a) {
        Ok(Command::Extract { output, to_stdout, .. }) => assert!(output == "-" && to_stdout),
        _ => panic!("extract"),
    }
    a.pg_database = Some("pg".to_string());
    assert!(matches!(run(&a), Ok(Command::Migrate)));
    a.table = None;
    assert!(matches!(run(&a), Err(CliError::NothingToMigrate)));
    a.tables = vec!["A".to_string()];
    assert!(matches!(run(&a), Ok(Command::MigrateList)));
    a.all_tables = true;
    assert!(matches!(run(&a), Ok(Command::MigrateAll)));
    a.create_table = true;
    assert!(matches!(run(&a), Ok(Command::CreateTable)));
    a.list_tables = true;
    assert!(matches!(run(&a), Err(CliError::NoDatabase)));
    a.database = Some("x.fdb".to_string());
    assert!(matches!(run(&a), Ok(Command::ListTables)));
    a.table = Some("__debug_constraints:CLIENTES".to_string());
    match run(&a) {
        Ok(Command::Constraints(t)) => assert_eq!(t, "CLIENTES"),
        _ => panic!("constraints"),
    }
    a.inspect = true;
    assert!(matches!(run(&a), Ok(Command::Inspect)));
    a.watch = true;
    assert!(matches!(run(&a), Ok(Command::Watch)));
    a.bench = true;
    assert!(matches!(run(&a), Ok(Command::Bench)));
}

#[test]
fn a_watch_has_its_defaults() {
    let mut a = args();
    a.database = Some("/db/x.fdb".to_string());
    a.pg_database = Some("pg".to_string());
    assert!(matches!(watch(&a).ok().unwrap().tables, TableChoice::All));
    a.table = Some("T".to_string());
    a.watch_interval = 0;
    let p = watch(&a).ok().unwrap();
    assert_eq!(p.db_path, "/db/x.fdb");
    assert_eq!(p.state_path, "/db/x.fdb.cdc.json");
    assert_eq!(p.interval_secs, 1);
    assert!(matches!(p.tables, TableChoice::Named(v) if v == ["T"]));
    a.tables = vec!["A".to_string(), "B".to_string()];
    a.state_file = Some("s.json".to_string());
    a.watch_interval = 9;
    let p = watch(&a).ok().unwrap();
    assert_eq!((p.state_path.as_str(), p.interval_secs), ("s.json", 9));
    assert!(matches!(p.tables, TableChoice::Named(v) if v == ["A", "B"]));
    a.all_tables = true;
    assert!(matches!(watch(&a).ok().unwrap().tables, TableChoice::All));
}

#[test]
fn single_choices() {
    assert!(choose_tables(false, &vec![], &None).is_none());
    assert_eq!(interval_secs(u32::MAX), 4294967295);
    assert_eq!(state_path(&None, "a"), "a.cdc.json");
}

#[test]
fn errors_have_texts() {
    let texts: Vec<String> = [
        CliError::NoDatabase,
        CliError::NothingToInspect,
        CliError::NothingToMigrate,
        CliError::NothingToExtract,
        CliError::NothingToPush,
    ]
    .iter()
    .map(|e| e.message())
    .collect();
    assert_eq!(
        texts,
        [
            "--database required",
            "--table TABLE required for --inspect",
            "Provide --table TABLE, --tables T1 T2 ..., or --all-tables",
            "Provide --table TABLE or --list-tables",
            "provide --table, --tables, or --all-tables",
        ]
    );
}
