use schema_migrations::error::Error;
use schema_migrations::migration::Migration;
use schema_migrations::{Migrations, MigrationFile};

fn file(filename: &str, content: &str) -> MigrationFile {
    MigrationFile { filename: filename.to_string(), content: content.to_string() }
}

#[test]
fn parse_simple_filename() {
    let m = Migration::new("1-init.sql", "CREATE TABLE a(x int)").unwrap();
    assert_eq!(m.version, 1);
    assert_eq!(m.name, "init");
    assert_eq!(m.sql, "CREATE TABLE a(x int)");
}

#[test]
fn parse_leading_zeros_and_long_name() {
    let m = Migration::new("0042-add users table.sql", "x").unwrap();
    assert_eq!(m.version, 42);
    assert_eq!(m.name, "add users table");
}

#[test]
fn parse_name_may_hold_dashes_and_dots() {
    let m = Migration::new("7-a-b.c.sql", "y").unwrap();
    assert_eq!(m.version, 7);
    assert_eq!(m.name, "a-b.c");
}

#[test]
fn parse_empty_name() {
    let m = Migration::new("3-.sql", "z").unwrap();
    assert_eq!(m.version, 3);
    assert_eq!(m.name, "");
}

#[test]
fn parse_rejects_missing_dash() {
    let e = Migration::new("init.sql", "x").unwrap_err();
    assert!(matches!(e, Error::MigrationReadError { filename } if filename == "init.sql"));
}

#[test]
fn parse_rejects_nondigit_version() {
    let e = Migration::new("1a-init.sql", "x").unwrap_err();
    assert!(matches!(e, Error::MigrationReadError { .. }));
}

#[test]
fn parse_rejects_missing_suffix() {
    assert!(Migration::new("1-init.txt", "x").is_err());
    assert!(Migration::new("1-init", "x").is_err());
    assert!(Migration::new("1-", "x").is_err());
}

#[test]
fn parse_rejects_empty_version() {
    assert!(Migration::new("-init.sql", "x").is_err());
}

#[test]
fn parse_rejects_version_overflow() {
    assert!(Migration::new("99999999999-init.sql", "x").is_err());
    // The same value written with leading zeros still fits.
    let m = Migration::new("0000000002147483647-max.sql", "x").unwrap();
    assert_eq!(m.version, i32::MAX);
    assert!(Migration::new("2147483648-over.sql", "x").is_err());
}

#[test]
fn from_files_sorts_by_version() {
    let files = vec![
        file("3-c.sql", "c"),
        file("1-a.sql", "a"),
        file("2-b.sql", "b"),
    ];
    let set = Migrations::from_files(&files).unwrap();
    let versions: Vec<i32> = set.migrations.iter().map(|m| m.version).collect();
    assert_eq!(versions, vec![1, 2, 3]);
    assert_eq!(set.migrations[0].name, "a");
    assert_eq!(set.migrations[2].sql, "c");
}

#[test]
fn from_files_accepts_empty_listing() {
    let set = Migrations::from_files(&Vec::new()).unwrap();
    assert!(set.migrations.is_empty());
}

#[test]
fn from_files_reports_duplicate_versions() {
    let files = vec![
        file("1-a.sql", "a"),
        file("2-b.sql", "b"),
        file("2-c.sql", "c"),
        file("3-d.sql", "d"),
    ];
    let e = Migrations::from_files(&files).unwrap_err();
    assert!(matches!(e, Error::DuplicateMigrations { versions } if versions == vec![2]));
}

#[test]
fn from_files_reports_every_duplicate() {
    let files = vec![
        file("5-a.sql", "a"),
        file("5-b.sql", "b"),
        file("5-c.sql", "c"),
        file("9-d.sql", "d"),
        file("9-e.sql", "e"),
    ];
    let e = Migrations::from_files(&files).unwrap_err();
    assert!(matches!(e, Error::DuplicateMigrations { versions } if versions == vec![5, 5, 9]));
}

#[test]
fn from_files_reports_first_unparsable_filename() {
    let files = vec![
        file("1-a.sql", "a"),
        file("broken", "b"),
        file("also-broken", "c"),
    ];
    let e = Migrations::from_files(&files).unwrap_err();
    assert!(matches!(e, Error::MigrationReadError { filename } if filename == "broken"));
}
