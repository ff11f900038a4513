//! Tables that transactions create, drop and rename.

use crate::engine::{
    EngineError, EngineV, ErrorV, MVCCEngine, next_epoch, schema_fault, stripped, table_created,
    table_dropped, table_moved, table_renamed, took_effect, with_moved, with_tables,
};
use crate::schema::{Schema, SchemaV};
use crate::text::{lowercase, unicode_lowercase};
use vstd::prelude::*;
use vstd::string::*;

verus! {

/// The engine after a transaction created a table under a name.
pub open spec fn created_in_transaction(e: EngineV, name: Seq<char>, s: SchemaV) -> Result<
    EngineV,
    ErrorV,
> {
    let key = unicode_lowercase(name);
    if e.tables.contains_key(key) {
        Err(ErrorV::TableAlreadyExists(key))
    } else {
        Ok(with_tables(e, e.tables.insert(key, s)))
    }
}

/// The engine after a transaction dropped a table.
pub open spec fn dropped_in_transaction(e: EngineV, name: Seq<char>) -> Result<EngineV, ErrorV> {
    let key = unicode_lowercase(name);
    if !e.tables.contains_key(key) {
        Err(ErrorV::TableNotFound(key))
    } else {
        Ok(with_tables(e, stripped(e.tables.remove(key), key)))
    }
}

/// The engine after a transaction moved a table to another name, before that is seen by caches.
pub open spec fn moved_in_transaction(e: EngineV, old_name: Seq<char>, new_name: Seq<char>) -> Result<
    EngineV,
    ErrorV,
> {
    let from = unicode_lowercase(old_name);
    let to = unicode_lowercase(new_name);
    if !e.tables.contains_key(from) {
        Err(ErrorV::TableNotFound(from))
    } else if e.tables.contains_key(to) {
        Err(ErrorV::TableAlreadyExists(to))
    } else {
        Ok(EngineV { tables: with_moved(e.tables, old_name, new_name), ..e })
    }
}

/// The engine after a transaction renamed a table.
pub open spec fn renamed_in_transaction(e: EngineV, old_name: Seq<char>, new_name: Seq<char>) -> Result<
    EngineV,
    ErrorV,
> {
    match moved_in_transaction(e, old_name, new_name) {
        Ok(after) => Ok(with_tables(e, after.tables)),
        Err(x) => Err(x),
    }
}

impl MVCCEngine {
    /// Creates a table for a transaction.
    pub fn create_table_in_transaction(&mut self, name: &str, schema: Schema) -> (r: Result<
        (),
        EngineError,
    >)
        requires
            old(self).wf(),
        ensures
            final(self).wf(),
            took_effect(
                old(self)@,
                final(self)@,
                created_in_transaction(old(self)@, name@, schema@),
                r,
            ),
    {
        let key = lowercase(name);
        if self.has_table(key.as_str()) {
            return Err(EngineError::TableAlreadyExists(key));
        }
        self.put_table(key, schema);
        self.invalidate_caches();
        Ok(())
    }

    /// Drops a table for a transaction, and the foreign keys of other tables to it.
    pub fn drop_table_in_transaction(&mut self, name: &str) -> (r: Result<(), EngineError>)
        requires
            old(self).wf(),
        ensures
            final(self).wf(),
            took_effect(old(self)@, final(self)@, dropped_in_transaction(old(self)@, name@), r),
    {
        let key = lowercase(name);
        if !self.has_table(key.as_str()) {
            return Err(EngineError::TableNotFound(key));
        }
        self.forget_table(name);
        self.invalidate_caches();
        Ok(())
    }

    /// Moves a table to another name for a transaction, as the first half of a rename. Its files are
    /// to be moved next; the rename is finished by a move of the epoch, or taken back where they
    /// cannot be moved.
    pub fn move_table_in_transaction(&mut self, old_name: &str, new_name: &str) -> (r: Result<
        (),
        EngineError,
    >)
        requires
            old(self).wf(),
        ensures
            final(self).wf(),
            took_effect(
                old(self)@,
                final(self)@,
                moved_in_transaction(old(self)@, old_name@, new_name@),
                r,
            ),
    {
        let from = lowercase(old_name);
        let to = lowercase(new_name);
        if !self.has_table(from.as_str()) {
            return Err(EngineError::TableNotFound(from));
        }
        if self.has_table(to.as_str()) {
            return Err(EngineError::TableAlreadyExists(to));
        }
        self.rename_schema(from.as_str(), to, new_name);
        Ok(())
    }

    /// Renames a table that has no files to move for a transaction.
    pub fn rename_table_in_transaction(&mut self, old_name: &str, new_name: &str) -> (r: Result<
        (),
        EngineError,
    >)
        requires
            old(self).wf(),
        ensures
            final(self).wf(),
            took_effect(
                old(self)@,
                final(self)@,
                renamed_in_transaction(old(self)@, old_name@, new_name@),
                r,
            ),
    {
        match self.move_table_in_transaction(old_name, new_name) {
            Ok(_) => {
                self.invalidate_caches();
                Ok(())
            },
            Err(e) => Err(e),
        }
    }
}

/// On an open engine, what a transaction does to the tables is what the engine itself does; the epoch
/// moves with it.
pub proof fn transactions_do_as_the_engine(
    e: EngineV,
    s: SchemaV,
    old_name: Seq<char>,
    new_name: Seq<char>,
)
    requires
        e.open,
        schema_fault(s) is None,
        s.table_name_lower == unicode_lowercase(s.table_name),
    ensures
        created_in_transaction(e, s.table_name, s) == table_created(e, s),
        dropped_in_transaction(e, old_name) == table_dropped(e, old_name),
        moved_in_transaction(e, old_name, new_name) == table_moved(e, old_name, new_name),
        renamed_in_transaction(e, old_name, new_name) == table_renamed(e, old_name, new_name),
        match renamed_in_transaction(e, old_name, new_name) {
            Ok(after) => after.epoch == next_epoch(e.epoch),
            Err(_) => true,
        },
{
}

} // verus!
