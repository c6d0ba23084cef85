use vstd::prelude::*;

verus! {

/// Every failure this engine can report. Each variant carries what the
/// caller needs to diagnose the problem; all of them are fatal to the run.
#[derive(Debug)]
pub enum Error {
    /// A migration file could not be read or its filename does not match
    /// the expected `<version>-<name>.sql` format.
    MigrationReadError { filename: String },
    /// Two or more loaded migrations share a version; carries every
    /// duplicated version, once per extra occurrence, in ascending order.
    DuplicateMigrations { versions: Vec<i32> },
    /// The history table records migrations that are absent from the loaded
    /// set; carries the recorded names.
    MissingMigrations { names: Vec<String> },
    /// A loaded migration shares a version with a recorded entry of a
    /// different name; carries the loaded name and the recorded name.
    MigrationConflict { migration: String, present: String },
    /// A loaded migration matches a recorded entry by version and name but
    /// its content hashes differently: the file changed after it was applied.
    MigrationIntegrityViolation { migration: String },
    /// Executing or registering the named migration failed.
    FailedMigration { migration: String },
    /// The history table could not be created or verified.
    MigrationTableInitializationFailure,
}

} // verus!
