use schema_migrations::error::Error;
use schema_migrations::runner::{Command, Event, MigrationRunner, Progress};
use schema_migrations::schema::MigrationEntry;
use schema_migrations::{MigrationFile, Migrations};

fn file(filename: &str, content: &str) -> MigrationFile {
    MigrationFile { filename: filename.to_string(), content: content.to_string() }
}

fn load(files: Vec<MigrationFile>) -> Migrations {
    Migrations::from_files(&files).unwrap()
}

/// A stand-in for the database collaborator: a history table plus a log of
/// every SQL batch it was asked to execute.
struct FakeDb {
    table_created: bool,
    rows: Vec<MigrationEntry>,
    executed: Vec<String>,
}

impl FakeDb {
    fn new() -> FakeDb {
        FakeDb { table_created: false, rows: Vec::new(), executed: Vec::new() }
    }
}

/// Drive the runner to completion against the stand-in, collecting how each
/// migration went.
fn drive(runner: &mut MigrationRunner, db: &mut FakeDb) -> Result<Vec<Progress>, Error> {
    let mut outcomes = Vec::new();
    loop {
        match runner.next_command() {
            Command::Finished => return Ok(outcomes),
            Command::EnsureTable => {
                db.table_created = true;
                outcomes.push(runner.handle(Event::TableReady)?);
            }
            Command::LoadHistory => {
                runner.reconcile(&db.rows)?;
            }
            Command::QueryExists { version, .. } => {
                let exists = db.rows.iter().any(|r| r.id == version);
                outcomes.push(runner.handle(Event::Exists { applied: exists })?);
            }
            Command::Execute { sql } => {
                db.executed.push(sql);
                outcomes.push(runner.handle(Event::Executed)?);
            }
            Command::Register { entry } => {
                db.rows.push(entry);
                outcomes.push(runner.handle(Event::Registered)?);
            }
        }
    }
}

#[test]
fn round_trip_applies_and_registers_all() {
    let set = load(vec![
        file("2-two.sql", "SQL TWO"),
        file("1-one.sql", "SQL ONE"),
        file("3-three.sql", "SQL THREE"),
    ]);
    let mut runner = MigrationRunner::new(set);
    let mut db = FakeDb::new();
    runner.check_migrations(&db.rows).unwrap();
    drive(&mut runner, &mut db).unwrap();
    assert!(db.table_created);
    assert_eq!(db.executed, vec!["SQL ONE", "SQL TWO", "SQL THREE"]);
    assert_eq!(db.rows.len(), 3);
    assert_eq!(db.rows[0].id, 1);
    assert_eq!(db.rows[1].id, 2);
    assert_eq!(db.rows[2].id, 3);
    assert_eq!(db.rows[0].name, "one");
    assert_eq!(db.rows[1].checksum, openssl::sha::sha256(b"SQL TWO").to_vec());
    assert_eq!(db.rows[2].checksum, openssl::sha::sha256(b"SQL THREE").to_vec());
}

fn two_files() -> Vec<MigrationFile> {
    vec![file("1-a.sql", "A"), file("2-b.sql", "B")]
}

#[test]
fn second_run_skips_everything() {
    let mut runner = MigrationRunner::new(load(two_files()));
    let mut db = FakeDb::new();
    drive(&mut runner, &mut db).unwrap();
    assert_eq!(db.executed.len(), 2);
    assert_eq!(db.rows.len(), 2);

    let mut again = MigrationRunner::new(load(two_files()));
    again.check_migrations(&db.rows).unwrap();
    db.executed.clear();
    let outcomes = drive(&mut again, &mut db).unwrap();
    assert_eq!(db.executed.len(), 0);
    assert_eq!(db.rows.len(), 2);
    assert_eq!(
        outcomes,
        vec![Progress::Working, Progress::Skipped, Progress::Skipped]
    );
}

#[test]
fn partially_applied_set_runs_only_the_rest() {
    let applied = load(vec![file("2-mid.sql", "MID")]);
    let recorded = applied.migrations[0].as_entry();
    let set = load(vec![
        file("1-low.sql", "LOW"),
        file("2-mid.sql", "MID"),
        file("3-high.sql", "HIGH"),
    ]);
    let mut runner = MigrationRunner::new(set);
    let mut db = FakeDb::new();
    db.rows.push(recorded);
    runner.check_migrations(&db.rows).unwrap();
    let outcomes = drive(&mut runner, &mut db).unwrap();
    assert_eq!(db.executed, vec!["LOW", "HIGH"]);
    assert_eq!(db.rows.len(), 3);
    assert_eq!(
        outcomes,
        vec![
            Progress::Working,
            Progress::Working,
            Progress::Working,
            Progress::Applied,
            Progress::Skipped,
            Progress::Working,
            Progress::Working,
            Progress::Applied,
        ]
    );
}

#[test]
fn missing_history_entry_fails_before_anything_runs() {
    let set = load(vec![file("1-a.sql", "A"), file("2-b.sql", "B")]);
    let mut runner = MigrationRunner::new(set);
    let mut db = FakeDb::new();
    db.rows.push(MigrationEntry {
        id: 5,
        name: "gone".to_string(),
        checksum: vec![1, 2, 3],
    });
    let e = drive(&mut runner, &mut db).unwrap_err();
    assert!(matches!(e, Error::MissingMigrations { names } if names == vec!["gone"]));
    // The run is abandoned before any SQL executes.
    assert!(db.executed.is_empty());
    assert_eq!(db.rows.len(), 1);
    assert!(runner.finished());
}

#[test]
fn conflicting_name_fails() {
    let set = load(vec![file("1-setup.sql", "X")]);
    let runner = MigrationRunner::new(set);
    let rows = vec![MigrationEntry {
        id: 1,
        name: "init".to_string(),
        checksum: openssl::sha::sha256(b"X").to_vec(),
    }];
    let e = runner.check_migrations(&rows).unwrap_err();
    match e {
        Error::MigrationConflict { migration, present } => {
            assert_eq!(migration, "setup");
            assert_eq!(present, "init");
        }
        other => panic!("unexpected error: {:?}", other),
    }
}

#[test]
fn tampered_content_fails_integrity() {
    let original = load(vec![file("1-init.sql", "CREATE TABLE t(x int)")]);
    let recorded = original.migrations[0].as_entry();
    let edited = load(vec![file("1-init.sql", "CREATE TABLE t(x bigint)")]);
    let runner = MigrationRunner::new(edited);
    let e = runner.check_migrations(&vec![recorded]).unwrap_err();
    assert!(matches!(e, Error::MigrationIntegrityViolation { migration } if migration == "init"));
}

#[test]
fn matching_history_reconciles() {
    let set = load(vec![file("1-a.sql", "A"), file("2-b.sql", "B")]);
    let rows = vec![set.migrations[0].as_entry(), set.migrations[1].as_entry()];
    let runner = MigrationRunner::new(set);
    runner.check_migrations(&rows).unwrap();
}

#[test]
fn failed_execution_stops_the_run() {
    let set = load(vec![file("1-a.sql", "A"), file("2-b.sql", "B")]);
    let mut runner = MigrationRunner::new(set);
    assert!(matches!(runner.next_command(), Command::EnsureTable));
    runner.handle(Event::TableReady).unwrap();
    assert!(matches!(runner.next_command(), Command::LoadHistory));
    runner.reconcile(&Vec::new()).unwrap();
    // First migration: not recorded, execution fails.
    match runner.next_command() {
        Command::QueryExists { version, name } => {
            assert_eq!(version, 1);
            assert_eq!(name, "a");
        }
        other => panic!("unexpected command: {:?}", other),
    }
    runner.handle(Event::Exists { applied: false }).unwrap();
    match runner.next_command() {
        Command::Execute { sql } => assert_eq!(sql, "A"),
        other => panic!("unexpected command: {:?}", other),
    }
    let e = runner.handle(Event::ExecuteFailed).unwrap_err();
    assert!(matches!(e, Error::FailedMigration { migration } if migration == "a"));
    // The run is abandoned: nothing further is asked for.
    assert!(runner.finished());
    assert!(matches!(runner.next_command(), Command::Finished));
}

#[test]
fn failed_registration_stops_the_run() {
    let set = load(vec![file("1-a.sql", "A")]);
    let mut runner = MigrationRunner::new(set);
    runner.handle(Event::TableReady).unwrap();
    runner.reconcile(&Vec::new()).unwrap();
    runner.handle(Event::Exists { applied: false }).unwrap();
    runner.handle(Event::Executed).unwrap();
    match runner.next_command() {
        Command::Register { entry } => {
            assert_eq!(entry.id, 1);
            assert_eq!(entry.name, "a");
            assert_eq!(entry.checksum, openssl::sha::sha256(b"A").to_vec());
        }
        other => panic!("unexpected command: {:?}", other),
    }
    let e = runner.handle(Event::RegisterFailed).unwrap_err();
    assert!(matches!(e, Error::FailedMigration { migration } if migration == "a"));
    assert!(runner.finished());
}

#[test]
fn checksum_is_a_real_digest() {
    let set = load(vec![file("1-a.sql", "some content")]);
    let entry = set.migrations[0].as_entry();
    assert_eq!(entry.checksum.len(), 32);
    assert_ne!(entry.checksum, b"some content".to_vec());
    assert_eq!(entry.checksum, openssl::sha::sha256(b"some content").to_vec());
    // A different content hashes differently.
    let other = load(vec![file("1-a.sql", "other content")]);
    assert_ne!(other.migrations[0].as_entry().checksum, entry.checksum);
}

#[test]
fn failed_table_initialization_stops_the_run() {
    let set = load(vec![file("1-a.sql", "A")]);
    let mut runner = MigrationRunner::new(set);
    assert!(matches!(runner.next_command(), Command::EnsureTable));
    let e = runner.handle(Event::TableFailed).unwrap_err();
    assert!(matches!(e, Error::MigrationTableInitializationFailure));
    assert!(runner.finished());
    assert!(matches!(runner.next_command(), Command::Finished));
}
