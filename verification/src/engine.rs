use vstd::prelude::*;
use crate::table::{wf, Table, MONEY_CAP};

verus! {

/// The process-wide registry of tables; the layer around the engine keeps
/// one instance of it behind a single lock.
pub struct Engine {
    pub tables: Vec<Table>,
}

impl Engine {
    /// An empty registry.
    pub fn new() -> (e: Engine)
        ensures
            e.tables@.len() == 0,
    {
        Engine { tables: Vec::new() }
    }

    /// The registry's tables, for iteration and in-place mutation.
    pub fn get_tables(&mut self) -> (r: &mut Vec<Table>)
        ensures
            *r == old(self).tables,
            final(self).tables == *final(r),
    {
        &mut self.tables
    }

    /// Opens a new table with the given configuration, hosted by the named
    /// player.
    pub fn new_table(
        &mut self,
        name: String,
        table_name: String,
        max_players: usize,
        minimal_bid: i32,
        starting_chips: i32,
        key: String,
    )
        requires
            0 < starting_chips <= MONEY_CAP,
        ensures
            final(self).tables@.len() == old(self).tables@.len() + 1,
            forall|i: int|
                0 <= i < old(self).tables@.len() ==> final(self).tables@[i] == old(
                    self,
                ).tables@[i],
            wf(final(self).tables@.last()),
            final(self).tables@.last().name == table_name,
            final(self).tables@.last().max_players == max_players,
            final(self).tables@.last().minimal_bid == minimal_bid,
            final(self).tables@.last().starting_chips == starting_chips,
    {
        self.tables.push(Table::new(name, table_name, max_players, minimal_bid, starting_chips, key));
    }

    /// Closes the table at `index`; the tables after it move down one
    /// place.
    pub fn remove_table(&mut self, index: usize)
        requires
            index < old(self).tables@.len(),
        ensures
            final(self).tables@ == old(self).tables@.remove(index as int),
    {
        self.tables.remove(index);
    }
}

} // verus!
