//! The precomputed tables that every board reads and none changes.
use vstd::prelude::*;
use crate::attacks::AttackTables;
use crate::zobrist::HashTable;

verus! {

/// The attack tables and the key table.
pub struct Tables {
    pub attacks: AttackTables,
    pub keys: HashTable,
}

impl Tables {
    /// Both tables are whole.
    pub open spec fn wf(&self) -> bool {
        self.attacks.wf() && self.keys.wf()
    }

    /// Builds all tables. Once per process is enough.
    pub fn new() -> (t: Tables)
        ensures
            t.wf(),
    {
        Tables { attacks: AttackTables::new(), keys: HashTable::new() }
    }
}

} // verus!
