use vstd::prelude::*;

verus! {

/// One row of the persisted history table: the projection of a migration
/// that was applied, keyed by its version.
#[derive(Debug)]
pub struct MigrationEntry {
    pub id: i32,
    pub name: String,
    pub checksum: Vec<u8>,
}

/// The mathematical content of a history row.
pub ghost struct EntryModel {
    pub id: int,
    pub name: Seq<char>,
    pub checksum: Seq<u8>,
}

impl MigrationEntry {
    pub open spec fn model(self) -> EntryModel {
        EntryModel { id: self.id as int, name: self.name@, checksum: self.checksum@ }
    }
}

} // verus!
